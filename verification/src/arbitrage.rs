//! Tops of book from several exchanges, and the chance of buying on one and selling
//! on another.

use crate::float::{is_positive, law_numbers_by_their_bits, less, rank, Float};
use crate::market::OrderBookTop;
use crate::table::Table;
use crate::text::{copy_text, remove_char, same_text, to_uppercase, uppercase, without};
use dashmap::DashMap;
use vstd::prelude::*;

verus! {

/// The best prices of an exchange, with their quantities.
#[derive(Clone, Copy, PartialEq, Eq, Structural, Debug)]
pub struct Quote {
    /// The best bid.
    pub bid: Float,
    /// The best ask.
    pub ask: Float,
    /// The quantity at the best bid.
    pub bid_qty: Float,
    /// The quantity at the best ask.
    pub ask_qty: Float,
}

/// A price on an exchange.
#[derive(Debug)]
pub struct Best {
    /// The exchange.
    pub exchange: String,
    /// The price.
    pub price: Float,
    /// The quantity at that price.
    pub qty: Float,
}

/// What a price on an exchange says.
pub open spec fn best_view(b: Option<Best>) -> Option<(Seq<char>, Float, Float)> {
    match b {
        Some(x) => Some((x.exchange@, x.price, x.qty)),
        None => None,
    }
}

/// `b` is the highest of the bids above zero, and none where there is no such bid.
/// Which exchange it comes from is open where several have it.
pub open spec fn is_max_bid(
    quotes: Map<Seq<char>, Quote>,
    b: Option<(Seq<char>, Float, Float)>,
) -> bool {
    match b {
        Some((exchange, price, qty)) => {
            &&& quotes.dom().contains(exchange)
            &&& quotes[exchange].bid == price
            &&& quotes[exchange].bid_qty == qty
            &&& is_positive(price)
            &&& forall|e: Seq<char>| #[trigger]
                quotes.dom().contains(e) && is_positive(quotes[e].bid) ==> !less(
                    price,
                    quotes[e].bid,
                )
        },
        None => forall|e: Seq<char>| #[trigger]
            quotes.dom().contains(e) ==> !is_positive(quotes[e].bid),
    }
}

/// `b` is the lowest of the asks above zero, and none where there is no such ask.
pub open spec fn is_min_ask(
    quotes: Map<Seq<char>, Quote>,
    b: Option<(Seq<char>, Float, Float)>,
) -> bool {
    match b {
        Some((exchange, price, qty)) => {
            &&& quotes.dom().contains(exchange)
            &&& quotes[exchange].ask == price
            &&& quotes[exchange].ask_qty == qty
            &&& is_positive(price)
            &&& forall|e: Seq<char>| #[trigger]
                quotes.dom().contains(e) && is_positive(quotes[e].ask) ==> !less(
                    quotes[e].ask,
                    price,
                )
        },
        None => forall|e: Seq<char>| #[trigger]
            quotes.dom().contains(e) ==> !is_positive(quotes[e].ask),
    }
}

/// The quotes of a symbol on all exchanges, with the best of each side.
#[derive(Debug)]
pub struct ExchangeBook {
    books: Table<Quote>,
    max_bid: Option<Best>,
    min_ask: Option<Best>,
}

/// A chance: buy on one exchange at the lowest ask, sell on another at the highest
/// bid.
#[derive(Debug)]
pub struct Opportunity {
    /// Where to sell.
    pub sell: Best,
    /// Where to buy.
    pub buy: Best,
}

/// A copy of a price on an exchange.
fn copy_best(b: &Best) -> (r: Best)
    ensures
        best_view(Some(r)) == best_view(Some(*b)),
{
    Best { exchange: copy_text(b.exchange.as_str()), price: b.price, qty: b.qty }
}

impl ExchangeBook {
    /// The quotes by exchange.
    pub closed spec fn quotes(self) -> Map<Seq<char>, Quote> {
        self.books@
    }

    /// The highest bid above zero.
    pub closed spec fn highest_bid(self) -> Option<(Seq<char>, Float, Float)> {
        best_view(self.max_bid)
    }

    /// The lowest ask above zero.
    pub closed spec fn lowest_ask(self) -> Option<(Seq<char>, Float, Float)> {
        best_view(self.min_ask)
    }

    /// The best prices are those of the quotes.
    pub closed spec fn wf(self) -> bool {
        &&& self.books.wf()
        &&& is_max_bid(self.books@, best_view(self.max_bid))
        &&& is_min_ask(self.books@, best_view(self.min_ask))
    }

    /// The best prices of a book are those of its quotes.
    pub proof fn lemma_best(self)
        requires
            self.wf(),
        ensures
            is_max_bid(self.quotes(), self.highest_bid()),
            is_min_ask(self.quotes(), self.lowest_ask()),
    {
    }

    /// A book without quotes.
    pub fn new() -> (b: Self)
        ensures
            b.wf(),
            b.quotes() == Map::<Seq<char>, Quote>::empty(),
            b.highest_bid() is None,
            b.lowest_ask() is None,
    {
        ExchangeBook { books: Table::new(), max_bid: None, min_ask: None }
    }

    /// Takes in the quote of an exchange, in place of the one it had, and finds the
    /// best prices anew.
    pub fn update(&mut self, tob: OrderBookTop)
        requires
            old(self).wf(),
        ensures
            final(self).wf(),
            final(self).quotes() == old(self).quotes().insert(
                tob.exchange@,
                (Quote {
                    bid: tob.bid,
                    ask: tob.ask,
                    bid_qty: tob.bid_qty,
                    ask_qty: tob.ask_qty,
                }),
            ),
    {
        self.books.insert(
            tob.exchange,
            Quote { bid: tob.bid, ask: tob.ask, bid_qty: tob.bid_qty, ask_qty: tob.ask_qty },
        );
        self.recompute();
    }

    /// Finds the best prices of the quotes.
    fn recompute(&mut self)
        requires
            old(self).books.wf(),
        ensures
            final(self).wf(),
            final(self).books == old(self).books,
    {
        let max_bid = highest(&self.books);
        let min_ask = lowest(&self.books);
        self.max_bid = max_bid;
        self.min_ask = min_ask;
    }

    /// The chance that the best prices offer: none unless there is a bid and an ask
    /// and they come from different exchanges.
    pub fn opportunity(&self) -> (r: Option<Opportunity>)
        ensures
            match r {
                Some(o) => {
                    &&& self.highest_bid() == best_view(Some(o.sell))
                    &&& self.lowest_ask() == best_view(Some(o.buy))
                    &&& o.sell.exchange@ != o.buy.exchange@
                },
                None => match (self.highest_bid(), self.lowest_ask()) {
                    (Some(sell), Some(buy)) => sell.0 == buy.0,
                    _ => true,
                },
            },
    {
        match (&self.max_bid, &self.min_ask) {
            (Some(sell), Some(buy)) => {
                if same_text(sell.exchange.as_str(), buy.exchange.as_str()) {
                    None
                } else {
                    Some(Opportunity { sell: copy_best(sell), buy: copy_best(buy) })
                }
            },
            _ => None,
        }
    }
}

/// The highest bid above zero.
fn highest(books: &Table<Quote>) -> (r: Option<Best>)
    requires
        books.wf(),
    ensures
        is_max_bid(books@, best_view(r)),
{
    let n: usize = books.len();
    let mut at: Option<usize> = None;
    let mut i: usize = 0;
    while i < n
        invariant
            i <= n == books.size(),
            match at {
                Some(k) => k < i && is_positive(books.entry(k as int).1.bid) && forall|j: int|
                    #![trigger books.entry(j)]
                    0 <= j < i && is_positive(books.entry(j).1.bid) ==> !less(
                        books.entry(k as int).1.bid,
                        books.entry(j).1.bid,
                    ),
                None => forall|j: int|
                    #![trigger books.entry(j)]
                    0 <= j < i ==> !is_positive(books.entry(j).1.bid),
            },
        decreases n - i,
    {
        let q = *books.value_at(i);
        if q.bid.positive() {
            match at {
                None => at = Some(i),
                Some(k) => {
                    let p = books.value_at(k).bid;
                    if p.lt(&q.bid) {
                        at = Some(i);
                    }
                },
            }
        }
        i += 1;
    }
    proof {
        books.lemma_listed();
    }
    match at {
        Some(k) => {
            let q = *books.value_at(k);
            proof {
                let p = books.entry(k as int);
                assert forall|e: Seq<char>| #[trigger]
                    books@.dom().contains(e) && is_positive(books@[e].bid) implies !less(
                    q.bid,
                    books@[e].bid,
                ) by {
                    let j = choose|j: int| 0 <= j < books.size() && #[trigger] books.entry(j).0 == e;
                    assert(books@[books.entry(j).0] == books.entry(j).1);
                }
                assert(books@.dom().contains(p.0) && books@[p.0] == p.1);
            }
            Some(Best { exchange: copy_text(books.key_at(k)), price: q.bid, qty: q.bid_qty })
        },
        None => {
            proof {
                assert forall|e: Seq<char>| #[trigger] books@.dom().contains(e) implies !is_positive(
                    books@[e].bid,
                ) by {
                    let j = choose|j: int| 0 <= j < books.size() && #[trigger] books.entry(j).0 == e;
                    assert(books@[books.entry(j).0] == books.entry(j).1);
                }
            }
            None
        },
    }
}

/// The lowest ask above zero.
fn lowest(books: &Table<Quote>) -> (r: Option<Best>)
    requires
        books.wf(),
    ensures
        is_min_ask(books@, best_view(r)),
{
    let n: usize = books.len();
    let mut at: Option<usize> = None;
    let mut i: usize = 0;
    while i < n
        invariant
            i <= n == books.size(),
            match at {
                Some(k) => k < i && is_positive(books.entry(k as int).1.ask) && forall|j: int|
                    #![trigger books.entry(j)]
                    0 <= j < i && is_positive(books.entry(j).1.ask) ==> !less(
                        books.entry(j).1.ask,
                        books.entry(k as int).1.ask,
                    ),
                None => forall|j: int|
                    #![trigger books.entry(j)]
                    0 <= j < i ==> !is_positive(books.entry(j).1.ask),
            },
        decreases n - i,
    {
        let q = *books.value_at(i);
        if q.ask.positive() {
            match at {
                None => at = Some(i),
                Some(k) => {
                    let p = books.value_at(k).ask;
                    if q.ask.lt(&p) {
                        at = Some(i);
                    }
                },
            }
        }
        i += 1;
    }
    proof {
        books.lemma_listed();
    }
    match at {
        Some(k) => {
            let q = *books.value_at(k);
            proof {
                let p = books.entry(k as int);
                assert forall|e: Seq<char>| #[trigger]
                    books@.dom().contains(e) && is_positive(books@[e].ask) implies !less(
                    books@[e].ask,
                    q.ask,
                ) by {
                    let j = choose|j: int| 0 <= j < books.size() && #[trigger] books.entry(j).0 == e;
                    assert(books@[books.entry(j).0] == books.entry(j).1);
                }
                assert(books@.dom().contains(p.0) && books@[p.0] == p.1);
            }
            Some(Best { exchange: copy_text(books.key_at(k)), price: q.ask, qty: q.ask_qty })
        },
        None => {
            proof {
                assert forall|e: Seq<char>| #[trigger] books@.dom().contains(e) implies !is_positive(
                    books@[e].ask,
                ) by {
                    let j = choose|j: int| 0 <= j < books.size() && #[trigger] books.entry(j).0 == e;
                    assert(books@[books.entry(j).0] == books.entry(j).1);
                }
            }
            None
        },
    }
}

/// A symbol in upper case, without the stroke between its currencies.
pub fn normalize_symbol(s: &str) -> (r: String)
    ensures
        r@ == without(uppercase(s@), '/'),
{
    let upper = to_uppercase(s);
    remove_char(upper.as_str(), '/')
}

/// `dashmap::DashMap`, described by [`contents`].
#[verifier::external_type_specification]
#[verifier::external_body]
#[verifier::reject_recursive_types(K)]
#[verifier::reject_recursive_types(V)]
#[verifier::reject_recursive_types(S)]
pub struct ExDashMap<K, V, S>(dashmap::DashMap<K, V, S>);

/// The books in a map, by symbol.
pub uninterp spec fn contents(m: DashMap<String, ExchangeBook>) -> Map<Seq<char>, ExchangeBook>;

/// No books.
pub open spec fn no_books() -> Map<Seq<char>, ExchangeBook> {
    Map::empty()
}

/// `dashmap::DashMap::new`: an empty map.
#[verifier::external_body]
fn new_map() -> (m: DashMap<String, ExchangeBook>)
    ensures
        contents(m) == no_books(),
{
    DashMap::new()
}

/// The books with this one under `key`, unless there is one already.
pub open spec fn with_entry(
    books: Map<Seq<char>, ExchangeBook>,
    key: Seq<char>,
    fresh: ExchangeBook,
) -> Map<Seq<char>, ExchangeBook> {
    if books.dom().contains(key) {
        books
    } else {
        books.insert(key, fresh)
    }
}

/// `dashmap::DashMap::entry` and `or_insert_with`: a symbol without a book gets this
/// one; one with a book keeps it.
#[verifier::external_body]
fn ensure_entry(m: &mut DashMap<String, ExchangeBook>, key: String, fresh: ExchangeBook)
    ensures
        contents(*final(m)) == with_entry(contents(*old(m)), key@, fresh),
{
    m.entry(key).or_insert_with(|| fresh);
}

/// `dashmap::DashMap::get_mut`: where the symbol has a book, this one takes its
/// place and the old one comes out; otherwise nothing changes.
#[verifier::external_body]
fn exchange_book(
    m: &mut DashMap<String, ExchangeBook>,
    key: &str,
    book: ExchangeBook,
) -> (r: Option<ExchangeBook>)
    ensures
        r is Some <==> contents(*old(m)).dom().contains(key@),
        r is Some ==> r == Some(contents(*old(m))[key@]) && contents(*final(m)) == contents(
            *old(m),
        ).insert(key@, book),
        r is None ==> contents(*final(m)) == contents(*old(m)),
{
    m.get_mut(key).map(|mut place| std::mem::replace(&mut *place, book))
}

/// The best prices are the best there are: both are above zero, no exchange bids
/// more and none asks less.
pub proof fn law_best_prices_are_the_best(
    book: ExchangeBook,
    sell: (Seq<char>, Float, Float),
    buy: (Seq<char>, Float, Float),
    e: Seq<char>,
)
    requires
        book.wf(),
        book.highest_bid() == Some(sell),
        book.lowest_ask() == Some(buy),
        book.quotes().dom().contains(e),
    ensures
        is_positive(sell.1),
        is_positive(buy.1),
        is_positive(book.quotes()[e].bid) ==> rank(book.quotes()[e].bid) <= rank(sell.1),
        is_positive(book.quotes()[e].ask) ==> rank(book.quotes()[e].ask) >= rank(buy.1),
{
    book.lemma_best();
}

/// The books of all symbols.
pub struct Books {
    map: DashMap<String, ExchangeBook>,
}

impl View for Books {
    type V = Map<Seq<char>, ExchangeBook>;

    closed spec fn view(&self) -> Map<Seq<char>, ExchangeBook> {
        contents(self.map)
    }
}

/// The quotes of a symbol, none where it has no book.
pub open spec fn quotes_of(
    books: Map<Seq<char>, ExchangeBook>,
    symbol: Seq<char>,
) -> Map<Seq<char>, Quote> {
    if books.dom().contains(symbol) {
        books[symbol].quotes()
    } else {
        Map::empty()
    }
}

impl Books {
    /// The best prices of every book are those of its quotes.
    pub open spec fn wf(self) -> bool {
        forall|s: Seq<char>| #[trigger] self@.dom().contains(s) ==> self@[s].wf()
    }

    /// No books.
    pub fn new() -> (b: Self)
        ensures
            b.wf(),
            b@ == no_books(),
    {
        Books { map: new_map() }
    }

    /// Takes in a top of book under a symbol and gives the chance that the symbol
    /// offers then. The other symbols are left as they are.
    pub fn process(&mut self, key: String, tob: OrderBookTop) -> (r: Option<Opportunity>)
        requires
            old(self).wf(),
        ensures
            final(self).wf(),
            final(self)@.dom() == old(self)@.dom().insert(key@),
            forall|s: Seq<char>| #[trigger]
                old(self)@.dom().contains(s) && s != key@ ==> final(self)@[s] == old(self)@[s],
            final(self)@[key@].quotes() == quotes_of(old(self)@, key@).insert(
                tob.exchange@,
                (Quote {
                    bid: tob.bid,
                    ask: tob.ask,
                    bid_qty: tob.bid_qty,
                    ask_qty: tob.ask_qty,
                }),
            ),
            match r {
                Some(o) => {
                    &&& final(self)@[key@].highest_bid() == best_view(Some(o.sell))
                    &&& final(self)@[key@].lowest_ask() == best_view(Some(o.buy))
                    &&& o.sell.exchange@ != o.buy.exchange@
                },
                None => match (
                    final(self)@[key@].highest_bid(),
                    final(self)@[key@].lowest_ask(),
                ) {
                    (Some(sell), Some(buy)) => sell.0 == buy.0,
                    _ => true,
                },
            },
    {
        let name = copy_text(key.as_str());
        ensure_entry(&mut self.map, key, ExchangeBook::new());
        let place = exchange_book(&mut self.map, name.as_str(), ExchangeBook::new());
        match place {
            Some(current) => {
                let mut book = current;
                assert(old(self)@.dom().contains(name@) ==> old(self)@[name@].wf());
                book.update(tob);
                let chance = book.opportunity();
                let _ = exchange_book(&mut self.map, name.as_str(), book);
                proof {
                    assert(self@.dom() =~= old(self)@.dom().insert(name@));
                    assert forall|s: Seq<char>| #[trigger] self@.dom().contains(s) implies
                        self@[s].wf() by {
                        if s != name@ {
                            assert(old(self)@.dom().contains(s));
                        }
                    }
                }
                chance
            },
            None => None,
        }
    }
}

/// What a chance is: it sells on the exchange with the highest bid above zero, at that bid
/// and its quantity, and buys on another one with the lowest ask above zero, at that ask
/// and its quantity. There is none exactly when no exchange has a bid above zero, none has
/// an ask above zero, or the two best come from one exchange.
pub proof fn law_chance_is_the_best_pair(
    book: &ExchangeBook,
    r: Option<Opportunity>,
    e: Seq<char>,
    f: Seq<char>,
)
    requires
        book.wf(),
        call_ensures(ExchangeBook::opportunity, (book,), r),
        book.quotes().dom().contains(e),
        book.quotes().dom().contains(f),
    ensures
        r matches Some(o) ==> {
            let sell = o.sell.exchange@;
            let buy = o.buy.exchange@;
            &&& sell != buy
            &&& book.quotes().dom().contains(sell)
            &&& o.sell.price == book.quotes()[sell].bid
            &&& o.sell.qty == book.quotes()[sell].bid_qty
            &&& 0 < o.sell.price.0 <= 0x7FF0_0000_0000_0000
            &&& is_positive(book.quotes()[e].bid) ==> book.quotes()[e].bid.0 <= o.sell.price.0
            &&& book.quotes().dom().contains(buy)
            &&& o.buy.price == book.quotes()[buy].ask
            &&& o.buy.qty == book.quotes()[buy].ask_qty
            &&& 0 < o.buy.price.0 <= 0x7FF0_0000_0000_0000
            &&& is_positive(book.quotes()[e].ask) ==> o.buy.price.0 <= book.quotes()[e].ask.0
        },
        r is None && is_positive(book.quotes()[e].bid) && is_positive(book.quotes()[f].ask)
            ==> exists|x: Seq<char>| #[trigger]
            book.quotes().dom().contains(x) && is_positive(book.quotes()[x].bid) && is_positive(
                book.quotes()[x].ask,
            ) && book.quotes()[e].bid.0 <= book.quotes()[x].bid.0 && book.quotes()[x].ask.0
                <= book.quotes()[f].ask.0,
{
    book.lemma_best();
    let q = book.quotes();
    law_numbers_by_their_bits(q[e].bid, q[e].bid);
    law_numbers_by_their_bits(q[e].ask, q[e].ask);
    law_numbers_by_their_bits(q[f].ask, q[f].ask);
    if let Some((s, price, qty)) = book.highest_bid() {
        law_numbers_by_their_bits(price, q[e].bid);
        if let Some((b, ask, ask_qty)) = book.lowest_ask() {
            law_numbers_by_their_bits(q[e].ask, ask);
            law_numbers_by_their_bits(q[f].ask, ask);
            law_numbers_by_their_bits(ask, ask);
            if r is None {
                assert(s == b);
                assert(q.dom().contains(s));
            }
        }
    }
}

} // verus!
