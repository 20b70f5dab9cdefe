//! The capture of a live feed: from the exchange's messages to book events in ticks.
//!
//! A snapshot of the book seeds the recording, and the stream of changes is joined
//! to it by their update ids: the first change that is used must reach back to the
//! snapshot, and each one after it must begin where the one before it ended. On a
//! gap the recording is seeded anew.

use crate::decimal::ConvError;
use crate::json::{
    field, has_field, item, items_field, items_in, lacks, law_fields_are_read_by_name,
    law_missing_fields_are_not_read, lemma_values, str_field, str_item, u64_field, values_of, Doc,
    Json, Number,
};
use crate::text::{copy_text, own_text, same_text};
use vstd::prelude::*;

verus! {

/// Nanoseconds in a millisecond.
pub const NS_PER_MS: u64 = 1_000_000;

/// What a price or quantity text belongs to.
#[derive(Clone, Copy, PartialEq, Eq, Structural, Debug)]
pub enum Field {
    /// The price of a level.
    Px,
    /// The quantity of a level.
    Qty,
    /// The price of a trade.
    TradePx,
    /// The quantity of a trade.
    TradeQty,
}

/// What the exchange's answers can lack.
#[derive(Clone, Copy, PartialEq, Eq, Structural, Debug)]
pub enum Missing {
    /// The filters of the symbol.
    Filters,
    /// The size of a price tick.
    TickSize,
    /// The size of a quantity step.
    StepSize,
    /// The update id of a snapshot.
    LastUpdateId,
    /// The list of a snapshot's levels.
    Levels,
    /// The text of a level's price.
    LevelPx,
    /// The text of a level's quantity.
    LevelQty,
    /// The text of a changed level's price.
    DiffPx,
    /// The text of a changed level's quantity.
    DiffQty,
}

/// What is said of something that the exchange's answers lack.
pub open spec fn missing_message(m: Missing) -> Seq<char> {
    match m {
        Missing::Filters => "exchangeInfo: no symbol/filters"@,
        Missing::TickSize => "exchangeInfo: no PRICE_FILTER.tickSize"@,
        Missing::StepSize => "exchangeInfo: no LOT_SIZE.stepSize"@,
        Missing::LastUpdateId => "depth: no lastUpdateId"@,
        Missing::Levels => "depth: levels not an array"@,
        Missing::LevelPx => "depth: px not a string"@,
        Missing::LevelQty => "depth: qty not a string"@,
        Missing::DiffPx => "diff: px not a string"@,
        Missing::DiffQty => "diff: qty not a string"@,
    }
}

impl Missing {
    /// What is said of it.
    pub fn message(&self) -> (s: &'static str)
        ensures
            s@ == missing_message(*self),
    {
        match self {
            Missing::Filters => "exchangeInfo: no symbol/filters",
            Missing::TickSize => "exchangeInfo: no PRICE_FILTER.tickSize",
            Missing::StepSize => "exchangeInfo: no LOT_SIZE.stepSize",
            Missing::LastUpdateId => "depth: no lastUpdateId",
            Missing::Levels => "depth: levels not an array",
            Missing::LevelPx => "depth: px not a string",
            Missing::LevelQty => "depth: qty not a string",
            Missing::DiffPx => "diff: px not a string",
            Missing::DiffQty => "diff: qty not a string",
        }
    }
}

/// Why a capture stops.
#[derive(Debug)]
pub enum Fault {
    /// Something is missing.
    Missing(Missing),
    /// A text is no whole number of ticks.
    Convert {
        /// What the text belongs to.
        what: Field,
        /// The text.
        text: String,
        /// What is wrong with it.
        error: ConvError,
    },
}

/// Why a capture stops, in the abstract.
pub enum FaultModel {
    /// Something is missing.
    Missing(Missing),
    /// A text is no whole number of ticks.
    Convert(Field, Seq<char>, ConvError),
}

impl View for Fault {
    type V = FaultModel;

    open spec fn view(&self) -> FaultModel {
        match *self {
            Fault::Missing(m) => FaultModel::Missing(m),
            Fault::Convert { what, text, error } => FaultModel::Convert(what, text@, error),
        }
    }
}

/// The sizes of a price tick and a quantity step, as the exchange writes them.
#[derive(Debug)]
pub struct Scales {
    /// The size of a price tick.
    pub tick_size: String,
    /// The size of a quantity step.
    pub step_size: String,
}

impl View for Scales {
    type V = (Seq<char>, Seq<char>);

    open spec fn view(&self) -> (Seq<char>, Seq<char>) {
        (self.tick_size@, self.step_size@)
    }
}

/// The text under `key` in the last of the first `n` filters that are of a kind.
pub open spec fn last_filter(
    filters: Seq<Doc>,
    n: int,
    kind: Seq<char>,
    key: Seq<char>,
) -> Option<Seq<char>>
    decreases n,
{
    if n <= 0 {
        None
    } else if str_field(filters[n - 1], "filterType"@) == Some(kind) {
        str_field(filters[n - 1], key)
    } else {
        last_filter(filters, n - 1, kind, key)
    }
}

/// The filters of the first symbol.
pub open spec fn filters_of(v: Doc) -> Option<Seq<Doc>> {
    match field(v, "symbols"@) {
        Some(list) => match item(list, 0) {
            Some(first) => items_field(first, "filters"@),
            None => None,
        },
        None => None,
    }
}

/// The scales in the exchange's information.
pub open spec fn scales_in(v: Doc) -> Result<(Seq<char>, Seq<char>), Missing> {
    match filters_of(v) {
        Some(filters) => {
            let tick = last_filter(filters, filters.len() as int, "PRICE_FILTER"@, "tickSize"@);
            let step = last_filter(filters, filters.len() as int, "LOT_SIZE"@, "stepSize"@);
            match (tick, step) {
                (Some(t), Some(s)) => Ok((t, s)),
                (None, _) => Err(Missing::TickSize),
                (_, None) => Err(Missing::StepSize),
            }
        },
        None => Err(Missing::Filters),
    }
}

/// The text under `key` in the last filter of a kind.
fn find_filter(filters: &Vec<Json>, kind: &str, key: &str) -> (r: Option<String>)
    ensures
        own_text(r) == last_filter(
            values_of(filters@),
            values_of(filters@).len() as int,
            kind@,
            key@,
        ),
{
    let ghost docs = values_of(filters@);
    proof {
        lemma_values(filters@);
    }
    let mut i: usize = filters.len();
    while i > 0
        invariant
            i <= filters@.len(),
            docs.len() == filters@.len(),
            docs == values_of(filters@),
            forall|k: int| 0 <= k < filters@.len() ==> #[trigger] docs[k] == filters@[k]@,
            last_filter(docs, docs.len() as int, kind@, key@) == last_filter(
                docs,
                i as int,
                kind@,
                key@,
            ),
        decreases i,
    {
        let f = &filters[i - 1];
        assert(docs[i - 1] == f@);
        match f.get_str("filterType") {
            Some(t) => if same_text(t, kind) {
                return match f.get_str(key) {
                    Some(s) => Some(copy_text(s)),
                    None => None,
                };
            },
            None => {},
        }
        i -= 1;
    }
    None
}

/// The scales in the exchange's information.
pub fn resolve_scales(v: &Json) -> (r: Result<Scales, Missing>)
    ensures
        match r {
            Ok(s) => scales_in(v@) == Ok::<(Seq<char>, Seq<char>), Missing>(s@),
            Err(m) => scales_in(v@) == Err::<(Seq<char>, Seq<char>), Missing>(m),
        },
{
    let first = match v.get("symbols") {
        Some(list) => match list.at(0) {
            Some(first) => first,
            None => return Err(Missing::Filters),
        },
        None => return Err(Missing::Filters),
    };
    let filters = match first.get_array("filters") {
        Some(filters) => filters,
        None => return Err(Missing::Filters),
    };
    let tick_size = match find_filter(filters, "PRICE_FILTER", "tickSize") {
        Some(t) => t,
        None => return Err(Missing::TickSize),
    };
    let step_size = match find_filter(filters, "LOT_SIZE", "stepSize") {
        Some(s) => s,
        None => return Err(Missing::StepSize),
    };
    Ok(Scales { tick_size, step_size })
}

/// Prices and quantities of a side, as texts.
pub open spec fn level_texts(v: Seq<(String, String)>) -> Seq<(Seq<char>, Seq<char>)> {
    v.map_values(|l: (String, String)| (l.0@, l.1@))
}

/// The first `n` levels of a list: pairs of texts.
pub open spec fn levels_in(items: Seq<Doc>, n: int) -> Result<Seq<(Seq<char>, Seq<char>)>, Missing>
    decreases n,
{
    if n <= 0 {
        Ok(Seq::empty())
    } else {
        match levels_in(items, n - 1) {
            Err(m) => Err(m),
            Ok(before) => match (str_item(items[n - 1], 0), str_item(items[n - 1], 1)) {
                (Some(px), Some(qty)) => Ok(before.push((px, qty))),
                (None, _) => Err(Missing::LevelPx),
                (_, None) => Err(Missing::LevelQty),
            },
        }
    }
}

/// The levels of a side of a snapshot.
pub open spec fn side_levels(v: Option<Doc>) -> Result<Seq<(Seq<char>, Seq<char>)>, Missing> {
    match v {
        Some(d) => match items_in(d) {
            Some(items) => levels_in(items, items.len() as int),
            None => Err(Missing::Levels),
        },
        None => Err(Missing::Levels),
    }
}

/// A failure among the first levels is the failure of all.
proof fn lemma_levels_fail(items: Seq<Doc>, k: int, n: int)
    requires
        0 <= k <= n,
        levels_in(items, k) is Err,
    ensures
        levels_in(items, n) == levels_in(items, k),
    decreases n - k,
{
    if k < n {
        lemma_levels_fail(items, k, n - 1);
    }
}

/// The levels of a side of a snapshot.
pub fn levels_of(v: Option<&Json>) -> (r: Result<Vec<(String, String)>, Missing>)
    ensures
        match r {
            Ok(l) => side_levels(crate::json::opt_value(v)) == Ok::<
                Seq<(Seq<char>, Seq<char>)>,
                Missing,
            >(level_texts(l@)),
            Err(m) => side_levels(crate::json::opt_value(v)) == Err::<
                Seq<(Seq<char>, Seq<char>)>,
                Missing,
            >(m),
        },
{
    let items = match v {
        Some(d) => match d.as_array() {
            Some(items) => items,
            None => return Err(Missing::Levels),
        },
        None => return Err(Missing::Levels),
    };
    let ghost docs = values_of(items@);
    proof {
        lemma_values(items@);
    }
    let mut out: Vec<(String, String)> = Vec::new();
    assert(level_texts(out@) =~= Seq::empty());
    let mut i: usize = 0;
    while i < items.len()
        invariant
            i <= items@.len(),
            docs == values_of(items@),
            docs.len() == items@.len(),
            forall|k: int| 0 <= k < items@.len() ==> #[trigger] docs[k] == items@[k]@,
            levels_in(docs, i as int) == Ok::<Seq<(Seq<char>, Seq<char>)>, Missing>(
                level_texts(out@),
            ),
            side_levels(crate::json::opt_value(v)) == levels_in(docs, docs.len() as int),
        decreases items@.len() - i,
    {
        let ghost before = out@;
        assert(docs[i as int] == items@[i as int]@);
        match items[i].str_at(0) {
            Some(px) => match items[i].str_at(1) {
                Some(qty) => {
                    out.push((copy_text(px), copy_text(qty)));
                    assert(level_texts(out@) =~= level_texts(before).push((px@, qty@)));
                },
                None => {
                    proof {
                        lemma_levels_fail(docs, i + 1, docs.len() as int);
                    }
                    return Err(Missing::LevelQty);
                },
            },
            None => {
                proof {
                    lemma_levels_fail(docs, i + 1, docs.len() as int);
                }
                return Err(Missing::LevelPx);
            },
        }
        i += 1;
    }
    Ok(out)
}

/// A snapshot of the book.
#[derive(Debug)]
pub struct Snapshot {
    /// The id of the last update in it.
    pub last_update_id: u64,
    /// The bids.
    pub bids: Vec<(String, String)>,
    /// The asks.
    pub asks: Vec<(String, String)>,
}

/// What a snapshot says.
pub struct SnapshotModel {
    /// The id of the last update in it.
    pub last_update_id: u64,
    /// The bids.
    pub bids: Seq<(Seq<char>, Seq<char>)>,
    /// The asks.
    pub asks: Seq<(Seq<char>, Seq<char>)>,
}

impl View for Snapshot {
    type V = SnapshotModel;

    open spec fn view(&self) -> SnapshotModel {
        SnapshotModel {
            last_update_id: self.last_update_id,
            bids: level_texts(self.bids@),
            asks: level_texts(self.asks@),
        }
    }
}

/// The snapshot in an answer of the exchange.
pub open spec fn snapshot_in(v: Doc) -> Result<SnapshotModel, Missing> {
    match u64_field(v, "lastUpdateId"@) {
        None => Err(Missing::LastUpdateId),
        Some(last_update_id) => match side_levels(field(v, "bids"@)) {
            Err(m) => Err(m),
            Ok(bids) => match side_levels(field(v, "asks"@)) {
                Err(m) => Err(m),
                Ok(asks) => Ok(SnapshotModel { last_update_id, bids, asks }),
            },
        },
    }
}

/// The snapshot in an answer of the exchange.
pub fn read_snapshot(v: &Json) -> (r: Result<Snapshot, Missing>)
    ensures
        match r {
            Ok(s) => snapshot_in(v@) == Ok::<SnapshotModel, Missing>(s@),
            Err(m) => snapshot_in(v@) == Err::<SnapshotModel, Missing>(m),
        },
{
    let last_update_id: u64 = match v.get_u64("lastUpdateId") {
        Some(id) => id,
        None => return Err(Missing::LastUpdateId),
    };
    let bids = match levels_of(v.get("bids")) {
        Ok(l) => l,
        Err(m) => return Err(m),
    };
    let asks = match levels_of(v.get("asks")) {
        Ok(l) => l,
        Err(m) => return Err(m),
    };
    Ok(Snapshot { last_update_id, bids, asks })
}

/// Whether a filter says that it is of another kind, or of none.
pub open spec fn is_of_another_kind(f: Doc, kind: Seq<char>) -> bool {
    ||| lacks(f, "filterType"@)
    ||| exists|t: Seq<char>| t != kind && #[trigger] has_field(f, "filterType"@, Doc::Str(t))
}

proof fn lemma_last_filter(
    filters: Seq<Doc>,
    n: int,
    kind: Seq<char>,
    key: Seq<char>,
    i: int,
    text: Seq<char>,
)
    requires
        0 <= i < n <= filters.len(),
        has_field(filters[i], "filterType"@, Doc::Str(kind)),
        has_field(filters[i], key, Doc::Str(text)),
        forall|k: int| i < k < n ==> is_of_another_kind(#[trigger] filters[k], kind),
    ensures
        last_filter(filters, n, kind, key) == Some(text),
    decreases n,
{
    law_fields_are_read_by_name(filters[i], "filterType"@, Doc::Str(kind));
    law_fields_are_read_by_name(filters[i], key, Doc::Str(text));
    if i < n - 1 {
        let f = filters[n - 1];
        assert(is_of_another_kind(f, kind));
        if lacks(f, "filterType"@) {
            law_missing_fields_are_not_read(f, "filterType"@);
        } else {
            let t = choose|t: Seq<char>|
                t != kind && #[trigger] has_field(f, "filterType"@, Doc::Str(t));
            law_fields_are_read_by_name(f, "filterType"@, Doc::Str(t));
        }
        lemma_last_filter(filters, n - 1, kind, key, i, text);
    }
}

/// The scales are those of the first symbol: the size of a tick is the "tickSize" of its
/// price filter and the size of a step the "stepSize" of its lot-size filter, wherever the
/// two stand, and of several of a kind the last one counts.
pub proof fn law_scales_are_those_of_the_filters(
    v: &Json,
    r: Result<Scales, Missing>,
    symbols: Seq<Doc>,
    filters: Seq<Doc>,
    i: int,
    j: int,
    tick: Seq<char>,
    step: Seq<char>,
)
    requires
        call_ensures(resolve_scales, (v,), r),
        has_field(v@, "symbols"@, Doc::Arr(symbols)),
        symbols.len() > 0,
        has_field(symbols[0], "filters"@, Doc::Arr(filters)),
        0 <= i < filters.len(),
        has_field(filters[i], "filterType"@, Doc::Str("PRICE_FILTER"@)),
        has_field(filters[i], "tickSize"@, Doc::Str(tick)),
        forall|k: int|
            i < k < filters.len() ==> is_of_another_kind(#[trigger] filters[k], "PRICE_FILTER"@),
        0 <= j < filters.len(),
        has_field(filters[j], "filterType"@, Doc::Str("LOT_SIZE"@)),
        has_field(filters[j], "stepSize"@, Doc::Str(step)),
        forall|k: int|
            j < k < filters.len() ==> is_of_another_kind(#[trigger] filters[k], "LOT_SIZE"@),
    ensures
        r matches Ok(s) && s.tick_size@ == tick && s.step_size@ == step,
{
    law_fields_are_read_by_name(v@, "symbols"@, Doc::Arr(symbols));
    law_fields_are_read_by_name(symbols[0], "filters"@, Doc::Arr(filters));
    lemma_last_filter(filters, filters.len() as int, "PRICE_FILTER"@, "tickSize"@, i, tick);
    lemma_last_filter(filters, filters.len() as int, "LOT_SIZE"@, "stepSize"@, j, step);
}

/// Whether an entry of a snapshot is a pair of these texts.
pub open spec fn is_pair(entry: Doc, px: Seq<char>, qty: Seq<char>) -> bool {
    &&& entry matches Doc::Arr(e)
    &&& e.len() >= 2
    &&& e[0] == Doc::Str(px)
    &&& e[1] == Doc::Str(qty)
}

/// Whether an entry of a snapshot is a pair of texts.
pub open spec fn is_some_pair(entry: Doc) -> bool {
    exists|px: Seq<char>, qty: Seq<char>| #[trigger] is_pair(entry, px, qty)
}

proof fn lemma_levels_listed(items: Seq<Doc>, n: int)
    requires
        0 <= n <= items.len(),
        forall|i: int| 0 <= i < items.len() ==> is_some_pair(#[trigger] items[i]),
    ensures
        levels_in(items, n) matches Ok(l) && l.len() == n && forall|i: int|
            0 <= i < n ==> is_pair(items[i], (#[trigger] l[i]).0, l[i].1),
    decreases n,
{
    if n > 0 {
        lemma_levels_listed(items, n - 1);
        assert(is_some_pair(items[n - 1]));
        let (px, qty) = choose|px: Seq<char>, qty: Seq<char>| #[trigger]
            is_pair(items[n - 1], px, qty);
        assert(is_pair(items[n - 1], px, qty));
        assert(str_item(items[n - 1], 0) == Some(px));
        assert(str_item(items[n - 1], 1) == Some(qty));
    }
}

/// A snapshot has the update id of the answer and one level for each entry of its two
/// lists, in their order: bids from "bids", asks from "asks", the first text of an entry
/// as the price and the second as the quantity.
pub proof fn law_snapshot_lists_every_level(
    v: &Json,
    r: Result<Snapshot, Missing>,
    n: Number,
    id: u64,
    bids: Seq<Doc>,
    asks: Seq<Doc>,
)
    requires
        call_ensures(read_snapshot, (v,), r),
        has_field(v@, "lastUpdateId"@, Doc::Num(n)),
        n.unsigned == Some(id),
        has_field(v@, "bids"@, Doc::Arr(bids)),
        has_field(v@, "asks"@, Doc::Arr(asks)),
        forall|i: int| 0 <= i < bids.len() ==> is_some_pair(#[trigger] bids[i]),
        forall|i: int| 0 <= i < asks.len() ==> is_some_pair(#[trigger] asks[i]),
    ensures
        r matches Ok(s) && {
            &&& s.last_update_id == id
            &&& s.bids@.len() == bids.len()
            &&& s.asks@.len() == asks.len()
            &&& forall|i: int|
                0 <= i < bids.len() ==> is_pair(bids[i], (#[trigger] s.bids@[i]).0@, s.bids@[i].1@)
            &&& forall|i: int|
                0 <= i < asks.len() ==> is_pair(asks[i], (#[trigger] s.asks@[i]).0@, s.asks@[i].1@)
        },
{
    law_fields_are_read_by_name(v@, "lastUpdateId"@, Doc::Num(n));
    law_fields_are_read_by_name(v@, "bids"@, Doc::Arr(bids));
    law_fields_are_read_by_name(v@, "asks"@, Doc::Arr(asks));
    lemma_levels_listed(bids, bids.len() as int);
    lemma_levels_listed(asks, asks.len() as int);
    if let Ok(s) = r {
        let b = level_texts(s.bids@);
        let a = level_texts(s.asks@);
        assert(levels_in(bids, bids.len() as int) == Ok::<Seq<(Seq<char>, Seq<char>)>, Missing>(b));
        assert(levels_in(asks, asks.len() as int) == Ok::<Seq<(Seq<char>, Seq<char>)>, Missing>(a));
        assert forall|i: int| 0 <= i < bids.len() implies is_pair(
            bids[i],
            (#[trigger] s.bids@[i]).0@,
            s.bids@[i].1@,
        ) by {
            assert(b[i] == (s.bids@[i].0@, s.bids@[i].1@));
        }
        assert forall|i: int| 0 <= i < asks.len() implies is_pair(
            asks[i],
            (#[trigger] s.asks@[i]).0@,
            s.asks@[i].1@,
        ) by {
            assert(a[i] == (s.asks@[i].0@, s.asks@[i].1@));
        }
    }
}

/// What is missing is named: an answer without the update id, and one without a list for a
/// side.
pub proof fn law_missing_parts_are_named(v: &Json, r: Result<Snapshot, Missing>, n: Number, id: u64)
    requires
        call_ensures(read_snapshot, (v,), r),
    ensures
        lacks(v@, "lastUpdateId"@) ==> r == Err::<Snapshot, Missing>(Missing::LastUpdateId),
        has_field(v@, "lastUpdateId"@, Doc::Num(n)) && n.unsigned == Some(id) && lacks(v@, "bids"@)
            ==> r == Err::<Snapshot, Missing>(Missing::Levels),
{
    if lacks(v@, "lastUpdateId"@) {
        law_missing_fields_are_not_read(v@, "lastUpdateId"@);
    }
    if has_field(v@, "lastUpdateId"@, Doc::Num(n)) {
        law_fields_are_read_by_name(v@, "lastUpdateId"@, Doc::Num(n));
    }
    if lacks(v@, "bids"@) {
        law_missing_fields_are_not_read(v@, "bids"@);
    }
}

} // verus!
