use lob::float::Float;
use lob::market::{Batch, Record, TradeEvent};
use lob::metrics::{log_line, Rates, ThroughputMetrics};
use lob::outbox::{lane, stream_key, Lane, Outbox};
use lob::streams::{
    address, chunked, combined_stream_url, stream_address, topics, xadd, xreadgroup, Backoff,
};

fn names(v: &[&str]) -> Vec<String> {
    v.iter().map(|s| s.to_string()).collect()
}

#[test]
fn topics_are_in_lower_case() {
    assert_eq!(topics(&names(&["BTCUSDT", "Éx"]), "@trade"), names(&["btcusdt@trade", "éx@trade"]));
}

#[test]
fn topics_are_split_in_order() {
    let all = names(&["a", "b", "c", "d", "e"]);
    assert_eq!(chunked(all.clone(), 2), vec![names(&["a", "b"]), names(&["c", "d"]), names(&["e"])]);
    assert_eq!(chunked(all.clone(), 5), vec![all.clone()]);
    assert_eq!(chunked(all.clone(), 9), vec![all.clone()]);
    assert!(chunked(Vec::new(), 3).is_empty());
    let back: Vec<String> = chunked(all.clone(), 3).concat();
    assert_eq!(back, all);
}

#[test]
fn addresses_join_topics() {
    assert_eq!(
        combined_stream_url(&names(&["a@t", "b@t"])),
        "wss://stream.binance.com:9443/stream?streams=a@t/b@t"
    );
}

#[test]
fn commands_of_the_store() {
    assert_eq!(
        xadd("prices:x", true),
        names(&["XADD", "prices:x", "MAXLEN", "~", "10000", "*", "data"])
    );
    assert_eq!(xadd("k", false), names(&["XADD", "k", "*", "data"]));
    assert_eq!(
        xreadgroup(12, &names(&["s1", "s2"])),
        names(&[
            "XREADGROUP", "GROUP", "arb", "worker12", "BLOCK", "200", "COUNT", "200", "STREAMS",
            "s1", "s2", ">", ">"
        ])
    );
}

#[test]
fn waits_double_up_to_a_minute() {
    let mut b = Backoff::new();
    let mut seen = vec![b.millis()];
    for _ in 0..8 {
        b.lengthen();
        seen.push(b.millis());
    }
    assert_eq!(seen, [500, 1000, 2000, 4000, 8000, 16000, 32000, 60000, 60000]);
}

#[test]
fn batches_are_handed_out_when_due() {
    let mut b: Batch<u32> = Batch::new(3);
    assert!(b.take_rest().is_none());
    b.push(1);
    b.push(2);
    assert!(b.take_due().is_none());
    b.push(3);
    b.push(4);
    assert_eq!(b.take_due(), Some(vec![1, 2, 3, 4]));
    assert!(b.take_due().is_none());
    b.push(5);
    assert_eq!(b.take_rest(), Some(vec![5]));
    assert!(b.take_rest().is_none());
}

#[test]
fn nothing_is_lost_between_batches() {
    let mut b: Batch<u32> = Batch::new(50);
    let first = b.push_each(vec![7; 40]);
    assert!(first.is_empty());
    let sent = b.push_each((0..120).collect());
    assert_eq!(sent.iter().map(Vec::len).collect::<Vec<_>>(), [50, 50, 50]);
    let rest = b.take_rest().unwrap();
    assert_eq!(rest.len(), 10);
    let mut all: Vec<u32> = sent.concat();
    all.extend(rest);
    let mut want = vec![7; 40];
    want.extend(0..120);
    assert_eq!(all, want);
}

#[test]
fn counters_are_shared_between_handles() {
    let m = ThroughputMetrics::new();
    let n = m.clone();
    m.incr_recv();
    n.incr_recv();
    n.incr_pub();
    assert_eq!(m.totals().0, (2, 1));
}

#[test]
fn what_is_gained_is_what_was_counted_meanwhile() {
    let m = ThroughputMetrics::new();
    assert_eq!(m.totals().0, (0, 0));
    let mut rates = Rates::new();
    for _ in 0..3 {
        m.incr_recv();
    }
    let (t, _) = m.totals();
    assert_eq!(rates.advance(t.0, t.1), (3, 0));
    m.incr_pub();
    m.incr_recv();
    m.incr_pub();
    let (t, _) = m.totals();
    assert_eq!(t, (4, 2));
    assert_eq!(rates.advance(t.0, t.1), (1, 2));
    // A counter that went round its end.
    let mut rates = Rates { recv: u64::MAX, published: 0 };
    assert_eq!(rates.advance(1, 0), (2, 0));
}

#[test]
fn rates_are_what_was_gained() {
    let mut r = Rates::new();
    assert_eq!(r.advance(10, 4), (10, 4));
    assert_eq!(r.advance(15, 4), (5, 0));
    assert_eq!(
        log_line("bybit", "conn0", (5, 0), (15, 4)),
        "📊 [bybit:conn0] recv/s=5 | pub/s=0 | total_recv=15 | total_pub=4"
    );
}

#[test]
fn numbers_compare_by_their_bits() {
    let xs = [
        f64::NEG_INFINITY, -2.0, -1.0, -f64::MIN_POSITIVE, -0.0, 0.0, f64::MIN_POSITIVE, 1.0, 1.5,
        f64::MAX, f64::INFINITY, f64::NAN,
    ];
    for &x in &xs {
        let a = Float(x.to_bits());
        assert_eq!(a.nan(), x.is_nan());
        assert_eq!(a.positive(), x > 0.0);
        assert_eq!(a.not_above_zero(), x <= 0.0);
        assert_eq!(a.zero_or_minus_zero(), x == 0.0);
        for &y in &xs {
            assert_eq!(a.lt(&Float(y.to_bits())), x < y, "{x} < {y}");
        }
    }
}

#[test]
fn every_payload_is_sent_once_on_its_lane() {
    let mut o: Outbox<u32> = Outbox::new(2);
    o.put(Lane::Prices, 1);
    o.put(Lane::Trades, 2);
    assert_eq!(o.take_due(Lane::Prices), None);
    o.put(Lane::Prices, 3);
    assert_eq!(o.take_due(Lane::Trades), None);
    assert_eq!(o.take_due(Lane::Prices), Some(vec![1, 3]));
    assert_eq!(o.take_due(Lane::Prices), None);
    assert_eq!(o.take_rest(Lane::Books), None);
    assert_eq!(o.take_rest(Lane::Trades), Some(vec![2]));
    assert_eq!(o.take_rest(Lane::Trades), None);
    o.put(Lane::Books, 4);
    assert_eq!(o.take_rest(Lane::Books), Some(vec![4]));
}

#[test]
fn lanes_have_their_streams() {
    assert_eq!(stream_key(Lane::Prices, "kraken"), "prices:kraken");
    assert_eq!(stream_key(Lane::Books, "bybit"), "orderbook:bybit");
    assert_eq!(stream_key(Lane::Trades, "hyperliquid"), "trades:hyperliquid");
    let trade = TradeEvent {
        exchange: "bybit".to_string(),
        symbol: "BTCUSDT".to_string(),
        price: Float::zero(),
        qty: Float::zero(),
        side: "buy".to_string(),
        timestamp: 0,
    };
    assert_eq!(lane(&Record::Trade(trade)), Lane::Trades);
}

#[test]
fn addresses_are_given_their_normal_form() {
    assert_eq!(address("WSS://Ws.Kraken.com:443/v2").as_deref(), Some("wss://ws.kraken.com/v2"));
    assert_eq!(address("no address"), None);
    assert_eq!(
        stream_address(&names(&["btcusdt@trade", "a b"])).as_deref(),
        Some("wss://stream.binance.com:9443/stream?streams=btcusdt@trade/a%20b")
    );
}
