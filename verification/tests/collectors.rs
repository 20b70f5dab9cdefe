use lob::binance;
use lob::binance2;
use lob::bybit;
use lob::float::Float;
use lob::hyperliquid;
use lob::json::{parse, Json};
use lob::kraken;
use lob::market::{Filter, Parts, Record};
use lob::streams::Backoff;
use lob::table::Table;

fn json(text: &str) -> Json {
    parse(text.as_bytes()).unwrap()
}

fn f(x: f64) -> Float {
    Float(x.to_bits())
}

fn read(t: &Option<String>) -> Option<Float> {
    t.as_ref().and_then(|s| s.parse::<f64>().ok()).map(|x| Float(x.to_bits()))
}

fn names(v: &[&str]) -> Vec<String> {
    v.iter().map(|s| s.to_string()).collect()
}

#[test]
fn binance_prices() {
    let text = r#"{"stream":"x","data":{"s":"BTCUSDT","c":"1.5","v":"10","h":"2","l":"oops","E":77}}"#;
    let parts = match binance::handle_frame(binance::Stream::Price, text) {
        Some(Parts::Ticker(p)) => p,
        _ => panic!("a price"),
    };
    let numbers = (read(&parts.price), read(&parts.volume), read(&parts.high), read(&parts.low));
    let nd = parts.settle(binance::EXCHANGE, numbers, 5);
    assert_eq!(nd.exchange, "binance");
    assert_eq!(nd.symbol, "BTCUSDT");
    assert_eq!((nd.price, nd.volume, nd.high, nd.low), (f(1.5), f(10.0), f(2.0), f(0.0)));
    assert_eq!(nd.timestamp, 77);
}

#[test]
fn binance_messages_without_a_symbol_say_nothing() {
    for stream in [binance::Stream::Price, binance::Stream::OrderBook, binance::Stream::Trades] {
        assert!(binance::handle_frame(stream, r#"{"data":{"s":""}}"#).is_none());
        assert!(binance::handle_frame(stream, r#"{"data":{"c":"1"}}"#).is_none());
        assert!(binance::handle_frame(stream, r#"{"result":null}"#).is_none());
        assert!(binance::handle_frame(stream, "garbage").is_none());
    }
}

#[test]
fn binance_books_take_the_time_of_arrival() {
    let v = json(r#"{"data":{"s":"ETHUSDT","b":"1","a":"2","B":"3","A":"4"}}"#);
    let parts = binance::handle_orderbook_msg(&v).unwrap();
    let numbers = (read(&parts.bid), read(&parts.ask), read(&parts.bid_qty), read(&parts.ask_qty));
    let top = parts.settle(binance::EXCHANGE, binance::Stream::OrderBook.filter(), numbers, 99).unwrap();
    assert_eq!((top.bid, top.ask, top.bid_qty, top.ask_qty), (f(1.0), f(2.0), f(3.0), f(4.0)));
    assert_eq!(top.timestamp, 99);
}

#[test]
fn binance_trades_above_zero_are_kept() {
    let v = json(r#"{"data":{"s":"ETHUSDT","p":"2.5","q":"4","m":true,"T":12}}"#);
    let parts = binance::handle_trade_msg(&v).unwrap();
    let numbers = (read(&parts.price), read(&parts.qty));
    let filter = binance::Stream::Trades.filter();
    let t = parts.settle(binance::EXCHANGE, filter, numbers, 1).unwrap();
    assert_eq!((t.side.as_str(), t.price, t.qty, t.timestamp), ("sell", f(2.5), f(4.0), 12));
    let zero = binance::handle_trade_msg(&json(r#"{"data":{"s":"E","p":"0","q":"4"}}"#)).unwrap();
    assert_eq!(zero.side, "buy");
    let numbers = (read(&zero.price), read(&zero.qty));
    assert!(zero.settle(binance::EXCHANGE, filter, numbers, 1).is_none());
}

#[test]
fn binance_connections_share_the_topics() {
    let plans = binance::plan(binance::Stream::Trades, &names(&["BTCUSDT", "ethusdt", "Sol"]), 2);
    assert_eq!(plans.len(), 2);
    assert_eq!(plans[0].label, "trade_conn0");
    assert_eq!(plans[0].topics, names(&["btcusdt@trade", "ethusdt@trade"]));
    assert_eq!(
        plans[0].url,
        "wss://stream.binance.com:9443/stream?streams=btcusdt@trade/ethusdt@trade"
    );
    assert_eq!(plans[1].label, "trade_conn1");
    assert_eq!(plans[1].topics, names(&["sol@trade"]));
    assert!(binance::plan(binance::Stream::Price, &[], 0).is_empty());
    assert_eq!(binance::Stream::Price.key(), "prices:binance");
    assert_eq!(binance::Stream::OrderBook.log_name(), "binance_orderbook");
    assert_eq!(binance::Stream::OrderBook.suffix(), "@bookTicker");
    assert_eq!(binance::Stream::OrderBook.label(), "ob_conn");
}

#[test]
fn binance_waits_longer_after_each_attempt() {
    let mut b = Backoff::new();
    assert_eq!(binance::wait_before_retry(&mut b, binance::Ended::NoStore), 500);
    assert_eq!(binance::wait_before_retry(&mut b, binance::Ended::Refused), 500);
    assert_eq!(binance::wait_before_retry(&mut b, binance::Ended::Closed), 1000);
    for _ in 0..10 {
        let _ = binance::wait_before_retry(&mut b, binance::Ended::Closed);
    }
    assert_eq!(b.millis(), 60_000);
}

#[test]
fn binance2_prices_books_and_trades() {
    let t = binance2::MiniTicker {
        e: "24hrMiniTicker".to_string(),
        E: 5,
        s: "BTCUSDT".to_string(),
        c: "1".to_string(),
        o: "2".to_string(),
        h: "3".to_string(),
        l: "4".to_string(),
        v: "5".to_string(),
        q: "6".to_string(),
    };
    let p = binance2::ticker_parts(t);
    assert_eq!(p.price.as_deref(), Some("1"));
    assert_eq!(p.volume.as_deref(), Some("5"));
    assert_eq!(p.high.as_deref(), Some("3"));
    assert_eq!(p.low.as_deref(), Some("4"));
    assert_eq!(p.timestamp, Some(5));

    let b = binance2::handle_orderbook(&json(r#"{"s":1,"b":"2","a":"3"}"#)).unwrap();
    assert_eq!(b.symbol, "");
    assert_eq!(b.bid.as_deref(), Some("2"));
    assert!(b.bid_qty.is_none());
    assert!(binance2::handle_orderbook(&json(r#"{"s":"x","b":"2"}"#)).is_none());

    let tr = binance2::handle_trade(&json(r#"{"p":"x"}"#));
    assert_eq!(tr.symbol, "");
    assert_eq!(tr.side, "buy");
    let numbers = (read(&tr.price), read(&tr.qty));
    let ev = tr.settle(binance2::EXCHANGE, binance2::filter(), numbers, 8).unwrap();
    assert_eq!((ev.price, ev.qty, ev.timestamp), (f(0.0), f(0.0), 8));
}

#[test]
fn bybit_connections_share_the_topics() {
    let plans = bybit::plan(&names(&["BTCUSDT", "ETHUSDT"]), 4);
    assert_eq!(plans.len(), 2);
    assert_eq!(
        plans[0].topics,
        names(&["tickers.BTCUSDT", "orderbook.1.BTCUSDT", "publicTrade.BTCUSDT", "tickers.ETHUSDT"])
    );
    assert_eq!((plans[1].label.as_str(), plans[1].delay_ms), ("conn1", 200));
    assert_eq!(bybit::plan(&names(&["X"]), 0).len(), 3);
    assert_eq!(
        bybit::subscribe(&names(&["tickers.X", "a\"b"])),
        "{\"args\":[\"tickers.X\",\"a\\\"b\"],\"op\":\"subscribe\"}"
    );
}

#[test]
fn bybit_errors_end_a_connection() {
    match bybit::handle_frame(r#"{"ret_code":10001,"op":"subscribe"}"#) {
        bybit::Step::Stop(code) => assert_eq!(code, 10001),
        bybit::Step::Go(_) => panic!("an error code"),
    }
    for quiet in [
        r#"{"ret_code":0,"op":"subscribe","topic":"tickers.X","data":{"symbol":"X"}}"#,
        r#"{"op":"pong"}"#,
        r#"{"topic":"other.X"}"#,
        "no json",
    ] {
        match bybit::handle_frame(quiet) {
            bybit::Step::Go(v) => assert!(v.is_empty()),
            bybit::Step::Stop(_) => panic!("no error"),
        }
    }
}

#[test]
fn bybit_tickers() {
    let one = r#"{"topic":"tickers.BTC","ts":9,"data":{"symbol":"BTC","lastPrice":"1","volume24h":null,"x":1}}"#;
    match bybit::handle_frame(one) {
        bybit::Step::Go(v) => match &v[..] {
            [Parts::Ticker(p)] => {
                assert_eq!(p.symbol, "BTC");
                assert_eq!(p.price.as_deref(), Some("1"));
                assert!(p.volume.is_none() && p.high.is_none());
                assert_eq!(p.timestamp, Some(9));
            }
            _ => panic!("one ticker"),
        },
        bybit::Step::Stop(_) => panic!("no error"),
    }
    let many = r#"{"topic":"tickers.BTC","data":[{"symbol":"A"},{"symbol":1},{"lastPrice":"1"},
        {"symbol":"B","lowPrice24h":3},["C","1","2","3","4"],["D","1","2","3"],{"symbol":"E","highPrice24h":"7"}]}"#;
    let got = bybit::handle_ticker(&json(many));
    let symbols: Vec<&str> = got
        .iter()
        .map(|p| match p {
            Parts::Ticker(t) => t.symbol.as_str(),
            _ => panic!("tickers"),
        })
        .collect();
    assert_eq!(symbols, ["A", "C", "E"]);
    match &got[1] {
        Parts::Ticker(t) => {
            assert_eq!(t.price.as_deref(), Some("1"));
            assert_eq!(t.high.as_deref(), Some("2"));
            assert_eq!(t.low.as_deref(), Some("3"));
            assert_eq!(t.volume.as_deref(), Some("4"));
        }
        _ => panic!("a ticker"),
    }
    assert!(bybit::handle_ticker(&json(r#"{"data":"x"}"#)).is_empty());
}

#[test]
fn bybit_books() {
    let text = r#"{"topic":"orderbook.1.orderbook.1.BTC","ts":4,"data":{"b":[["1","2"],["0","0"]],"a":[["3"]]}}"#;
    let parts = match bybit::handle_frame(text) {
        bybit::Step::Go(mut v) => match v.pop() {
            Some(Parts::Top(p)) => p,
            _ => panic!("a top"),
        },
        bybit::Step::Stop(_) => panic!("no error"),
    };
    assert_eq!(parts.symbol, "BTC");
    let numbers = (read(&parts.bid), read(&parts.ask), read(&parts.bid_qty), read(&parts.ask_qty));
    let top = parts.settle(bybit::EXCHANGE, bybit::filter(), numbers, 0).unwrap();
    assert_eq!((top.bid, top.ask, top.bid_qty, top.ask_qty), (f(1.0), f(3.0), f(2.0), f(0.0)));
    assert_eq!(top.timestamp, 4);
    let mut best = Table::new();
    bybit::remember(&mut best, &top);
    bybit::remember(&mut best, &top);
    assert_eq!(best.len(), 1);
    assert_eq!(best.key_at(0), "BTC");
    assert_eq!(*best.value_at(0), (f(1.0), f(3.0), f(2.0), f(0.0)));

    assert!(bybit::handle_orderbook(&json(r#"{"topic":"orderbook.1.B","data":{"b":[],"a":[["1"]]}}"#)).is_none());
    assert!(bybit::handle_orderbook(&json(r#"{"topic":"orderbook.1.","data":{"b":[[]],"a":[[]]}}"#)).is_none());
    let odd = bybit::handle_orderbook(&json(r#"{"topic":"orderbook.1.B","data":{"b":["x"],"a":[["1"]]}}"#)).unwrap();
    assert!(odd.bid.is_none());
    let numbers = (read(&odd.bid), read(&odd.ask), None, None);
    assert!(odd.settle(bybit::EXCHANGE, bybit::filter(), numbers, 0).is_none());
}

#[test]
fn bybit_trades() {
    let text = r#"{"topic":"publicTrade.BTC","data":[{"s":"BTC","p":"1","q":"2","m":true,"T":3},{"s":""},{"s":"ETH"}]}"#;
    match bybit::handle_frame(text) {
        bybit::Step::Go(v) => {
            assert_eq!(v.len(), 2);
            match &v[0] {
                Parts::Trade(t) => {
                    assert_eq!((t.symbol.as_str(), t.side.as_str(), t.timestamp), ("BTC", "sell", Some(3)));
                }
                _ => panic!("a trade"),
            }
        }
        bybit::Step::Stop(_) => panic!("no error"),
    }
}

#[test]
fn bybit_waits_with_jitter() {
    let mut b = Backoff::new();
    assert_eq!(bybit::wait_with_jitter(&mut b, 12_345), 845);
    assert_eq!(b.millis(), 1000);
    let ms = bybit::wait_after_failure(&mut b);
    assert!((1000..2000).contains(&ms));
    assert_eq!(b.millis(), 2000);
    b.reset();
    assert_eq!(b.millis(), 500);
}

#[test]
fn kraken_channels() {
    let text = r#"{"channel":"ticker","data":[{"symbol":"BTC/USD","last":2.5,"volume":1,"high":3,"low":2},{"symbol":"X","last":0},{"symbol":"Y"}]}"#;
    let (channel, records) = kraken::handle_frame(text, 7).unwrap();
    assert_eq!(channel, kraken::Channel::Ticker);
    match &records[..] {
        [Record::Price(p)] => {
            assert_eq!(p.symbol, "BTCUSDT");
            assert_eq!((p.price, p.volume, p.high, p.low), (f(2.5), f(1.0), f(3.0), f(2.0)));
            assert_eq!((p.exchange.as_str(), p.timestamp), ("kraken", 7));
        }
        _ => panic!("one price"),
    }
    let text = r#"{"channel":"trade","data":[{"symbol":"ETH/USD","price":1,"qty":2},{"symbol":"A","price":-1,"qty":2},{"price":1,"qty":1,"side":"sell"}]}"#;
    let (_, records) = kraken::handle_frame(text, 7).unwrap();
    match &records[..] {
        [Record::Trade(a), Record::Trade(b)] => {
            assert_eq!((a.symbol.as_str(), a.side.as_str()), ("ETHUSDT", "buy"));
            assert_eq!((b.symbol.as_str(), b.side.as_str()), ("", "sell"));
        }
        _ => panic!("two trades"),
    }
    let text = r#"{"channel":"book","type":"update","data":[{"symbol":"SOL/USD","bids":[{"price":1,"qty":2}],"asks":[{"price":-3}]},{"symbol":"B","bids":[],"asks":[{"price":3}]}]}"#;
    let (_, records) = kraken::handle_frame(text, 7).unwrap();
    match &records[..] {
        [Record::Top(t)] => {
            assert_eq!(t.symbol, "SOLUSDT");
            assert_eq!((t.bid, t.ask, t.bid_qty, t.ask_qty), (f(1.0), f(-3.0), f(2.0), f(0.0)));
        }
        _ => panic!("one top"),
    }
}

#[test]
fn kraken_keeps_quiet() {
    assert!(kraken::handle_frame(r#"{"channel":"heartbeat"}"#, 0).is_none());
    assert!(kraken::handle_frame(r#"{"channel":"ticker","note":"heartbeat","data":[]}"#, 0).is_none());
    assert!(kraken::handle_frame(r#"{"channel":"status"}"#, 0).is_none());
    assert!(kraken::handle_frame("{", 0).is_none());
    assert!(kraken::handle_frame(r#"{"channel":"book"}"#, 0).unwrap().1.is_empty());
    assert_eq!(kraken::normalize_symbol("XRP/USD"), "XRPUSDT");
    assert_eq!(kraken::normalize_symbol("DOGE/USD"), "DOGE/USD");
    assert_eq!(
        kraken::subscribe(&names(&["BTC/USD"]))[2],
        r#"{"method":"subscribe","params":{"channel":"book","depth":10,"symbol":["BTC/USD"]}}"#
    );
}

#[test]
fn hyperliquid_books() {
    let text = r#"{"channel":"l2Book","data":{"coin":"BTC","time":3,"levels":[[{"px":"1","sz":"2"}],[{"px":"4","sz":"5"}]]}}"#;
    let parts = match hyperliquid::handle_frame(text) {
        hyperliquid::Heard::Book(p) => p,
        _ => panic!("a book"),
    };
    let numbers = (read(&parts.bid), read(&parts.ask), read(&parts.bid_qty), read(&parts.ask_qty));
    let top = parts.settle(hyperliquid::EXCHANGE, hyperliquid::filter(), numbers, 0).unwrap();
    assert_eq!((top.symbol.as_str(), top.timestamp), ("BTCUSDT", 3));
    assert_eq!((top.bid, top.ask, top.bid_qty, top.ask_qty), (f(1.0), f(4.0), f(2.0), f(5.0)));
    for quiet in [
        r#"{"channel":"l2Book","data":{"levels":[[]]}}"#,
        r#"{"channel":"l2Book","data":{"levels":[[],[{"px":"1"}]]}}"#,
        r#"{"channel":"l2Book","data":{}}"#,
        r#"{"channel":"pong","x":"pong"}"#,
        r#"{"channel":"other"}"#,
        "[",
    ] {
        assert!(matches!(hyperliquid::handle_frame(quiet), hyperliquid::Heard::Nothing));
    }
    assert!(matches!(
        hyperliquid::handle_frame(r#"{"channel":"l2Book"}"#),
        hyperliquid::Heard::MissingData
    ));
    assert!(matches!(
        hyperliquid::handle_frame(r#"{"channel":"bbo"}"#),
        hyperliquid::Heard::MissingData
    ));
}

#[test]
fn hyperliquid_trades_and_best_prices() {
    let text = r#"{"channel":"trades","data":[{"coin":"ETH","px":"1","sz":"2","side":"A"},{"coin":"DOGE"}]}"#;
    match hyperliquid::handle_frame(text) {
        hyperliquid::Heard::Trades(v) => match &v[..] {
            [Parts::Trade(a), Parts::Trade(b)] => {
                assert_eq!((a.symbol.as_str(), a.side.as_str()), ("ETHUSDT", "A"));
                assert_eq!((b.symbol.as_str(), b.side.as_str()), ("DOGE", "buy"));
                assert!(b.price.is_none());
            }
            _ => panic!("two trades"),
        },
        _ => panic!("trades"),
    }
    let text = r#"{"channel":"bbo","data":{"coin":"SOL","bbo":[{"px":"1","sz":"2"},{"px":"3","sz":"4"}]}}"#;
    let parts = match hyperliquid::handle_frame(text) {
        hyperliquid::Heard::Best(p) => p,
        _ => panic!("best prices"),
    };
    let nd = hyperliquid::settle_bbo(parts, Some(f(1.0)), Some(f(3.0)), f(2.0), f(6.0), 11).unwrap();
    assert_eq!((nd.symbol.as_str(), nd.timestamp), ("SOLUSDT", 11));
    assert_eq!((nd.price, nd.volume, nd.high, nd.low), (f(2.0), f(6.0), f(0.0), f(0.0)));
    let v = json(r#"{"coin":"SOL","bbo":[{},{}]}"#);
    let parts = hyperliquid::handle_bbo(&v).unwrap();
    assert!(hyperliquid::settle_bbo(parts, None, Some(f(3.0)), f(2.0), f(6.0), 11).is_none());
    assert!(hyperliquid::handle_bbo(&json(r#"{"bbo":[1]}"#)).is_none());
    assert_eq!(
        hyperliquid::subscribe("BTC")[1],
        r#"{"method":"subscribe","subscription":{"coin":"BTC","type":"trades"}}"#
    );
}

#[test]
fn filters_look_at_both_numbers() {
    let nan = Float(f64::NAN.to_bits());
    assert!(Filter::Any.passes(f(-1.0), f(0.0)));
    assert!(Filter::AboveZero.passes(f(1.0), nan));
    assert!(!Filter::AboveZero.passes(f(1.0), f(-0.0)));
    assert!(!Filter::AboveZero.passes(f(f64::NEG_INFINITY), f(1.0)));
    assert!(Filter::NotZero.passes(f(-1.0), nan));
    assert!(!Filter::NotZero.passes(f(-0.0), f(1.0)));
}

#[test]
fn binance2_books_are_replayed() {
    let parts = binance2::replayed(&json(r#"{"s":"BTC","b":"2","a":"3","A":"4"}"#));
    assert_eq!(parts.len(), 40);
    for p in &parts {
        assert_eq!(p.symbol, "BTC");
        assert_eq!(p.bid.as_deref(), Some("2"));
        assert_eq!(p.ask_qty.as_deref(), Some("4"));
        assert_eq!(p.bid_qty, None);
    }
    assert!(binance2::replayed(&json(r#"{"s":"BTC","b":"2"}"#)).is_empty());
}
