use lob::arbitrage::{normalize_symbol, Books, ExchangeBook};
use lob::float::Float;
use lob::market::OrderBookTop;
use lob::reply::{is_paired, payload_of, read_reply, Payload, Reply};

fn f(x: f64) -> Float {
    Float(x.to_bits())
}

fn top(exchange: &str, bid: f64, ask: f64) -> OrderBookTop {
    OrderBookTop {
        exchange: exchange.to_string(),
        symbol: "BTCUSDT".to_string(),
        bid: f(bid),
        ask: f(ask),
        bid_qty: f(bid * 10.0),
        ask_qty: f(ask * 10.0),
        timestamp: 0,
    }
}

#[test]
fn the_best_prices_of_two_exchanges_are_a_chance() {
    let mut b = ExchangeBook::new();
    assert!(b.opportunity().is_none());
    b.update(top("a", 10.0, 11.0));
    assert!(b.opportunity().is_none());
    b.update(top("b", 12.0, 13.0));
    let o = b.opportunity().unwrap();
    assert_eq!((o.sell.exchange.as_str(), o.sell.price, o.sell.qty), ("b", f(12.0), f(120.0)));
    assert_eq!((o.buy.exchange.as_str(), o.buy.price, o.buy.qty), ("a", f(11.0), f(110.0)));
}

#[test]
fn a_new_quote_replaces_the_old_one() {
    let mut b = ExchangeBook::new();
    b.update(top("a", 10.0, 11.0));
    b.update(top("b", 12.0, 13.0));
    b.update(top("b", 9.0, 14.0));
    assert!(b.opportunity().is_none());
}

#[test]
fn quotes_at_or_below_zero_do_not_count() {
    let mut b = ExchangeBook::new();
    b.update(top("a", 0.0, 11.0));
    b.update(top("b", -1.0, -2.0));
    b.update(top("c", f64::NAN, f64::NAN));
    assert!(b.opportunity().is_none());
    b.update(top("d", 1.0, 12.0));
    let o = b.opportunity().unwrap();
    assert_eq!((o.sell.exchange.as_str(), o.buy.exchange.as_str()), ("d", "a"));
}

#[test]
fn symbols_are_kept_apart() {
    let mut books = Books::new();
    assert!(books.process("X".to_string(), top("a", 10.0, 11.0)).is_none());
    assert!(books.process("Y".to_string(), top("b", 12.0, 13.0)).is_none());
    let o = books.process("X".to_string(), top("b", 12.0, 13.0)).unwrap();
    assert_eq!(o.sell.exchange, "b");
    assert_eq!(o.buy.exchange, "a");
}

#[test]
fn symbols_are_normalised() {
    assert_eq!(normalize_symbol("btc/usd"), "BTCUSD");
    assert_eq!(normalize_symbol("a//b/"), "AB");
    assert_eq!(normalize_symbol("straße"), "STRASSE");
}

fn data(s: &str) -> Reply {
    Reply::Data(s.as_bytes().to_vec())
}

#[test]
fn replies_list_entries() {
    let r = Reply::Bulk(vec![
        Reply::Bulk(vec![
            data("orderbook:a"),
            Reply::Bulk(vec![
                Reply::Bulk(vec![
                    data("1-0"),
                    Reply::Bulk(vec![data("data"), data("v1"), data("x"), Reply::Other]),
                ]),
                Reply::Bulk(vec![data("1-1")]),
                Reply::Bulk(vec![Reply::Other, Reply::Bulk(vec![])]),
                Reply::Bulk(vec![data("1-2"), Reply::Other]),
            ]),
        ]),
        Reply::Other,
        Reply::Bulk(vec![Reply::Other, Reply::Bulk(vec![])]),
        Reply::Bulk(vec![
            data("orderbook:b"),
            Reply::Bulk(vec![Reply::Bulk(vec![
                data("2-0"),
                Reply::Bulk(vec![data("data"), data("v2")]),
            ])]),
        ]),
    ]);
    assert!(is_paired(&r));
    let e = read_reply(&r);
    let got: Vec<(&[u8], &[u8], usize)> =
        e.iter().map(|x| (&x.stream[..], &x.id[..], x.values.len())).collect();
    assert_eq!(
        got,
        vec![
            (&b"orderbook:a"[..], &b"1-0"[..], 1),
            (&b"orderbook:a"[..], &b"1-2"[..], 0),
            (&b"orderbook:b"[..], &b"2-0"[..], 1),
        ]
    );
    assert_eq!(e[0].values[0], b"v1");
    assert!(read_reply(&Reply::Other).is_empty());
}

#[test]
fn odd_fields_are_seen() {
    let r = Reply::Bulk(vec![Reply::Bulk(vec![
        data("s"),
        Reply::Bulk(vec![Reply::Bulk(vec![data("1"), Reply::Bulk(vec![data("data")])])]),
    ])]);
    assert!(!is_paired(&r));
    assert!(is_paired(&Reply::Other));
}

#[test]
fn records_are_bytes_before_text() {
    let bytes = || Some(vec![1u8, 2]);
    let text = || Some("{}".to_string());
    assert!(matches!(payload_of("data", bytes(), text()), Payload::Binary(b) if b == [1, 2]));
    assert!(matches!(payload_of("data", None, text()), Payload::Text(s) if s == "{}"));
    assert!(matches!(payload_of("data", None, None), Payload::Nothing));
    assert!(matches!(payload_of("meta", bytes(), text()), Payload::Nothing));
}
