use lob::capture::{levels_of, read_snapshot, resolve_scales, Fault, Field, Missing, Scales, Snapshot};
use lob::decimal::ConvError;
use lob::event::{BookEvent, EventKind, Side};
use lob::json::{parse, Json};
use lob::price::{Px, Qty};
use lob::session::{has_fitting_time, read_frame, DepthSync, Emitter, Join, Next, Session};

fn json(text: &str) -> Json {
    parse(text.as_bytes()).unwrap()
}

fn scales() -> Scales {
    Scales { tick_size: "0.01".to_string(), step_size: "0.001".to_string() }
}

fn pair(px: &str, qty: &str) -> (String, String) {
    (px.to_string(), qty.to_string())
}

fn snapshot(id: u64) -> Snapshot {
    Snapshot {
        last_update_id: id,
        bids: vec![pair("100.00", "1.500"), pair("99.99", "0.250")],
        asks: vec![pair("100.01", "2.000")],
    }
}

fn session(trades: bool, max: Option<u64>) -> Session {
    Session::start(scales(), &snapshot(10), trades, max).unwrap()
}

fn diff(first: u64, last: u64, bids: &str, asks: &str) -> Json {
    json(&format!(
        r#"{{"e":"depthUpdate","E":5,"U":{first},"u":{last},"b":{bids},"a":{asks}}}"#
    ))
}

fn event(seq: u64, ts: u64, side: Side, kind: EventKind, px: i64, qty: i64) -> BookEvent {
    BookEvent { seq, ts, px: Px(px), qty: Qty(qty), side, kind }
}

#[test]
fn scales_come_from_the_filters() {
    let v = json(
        r#"{"symbols":[{"filters":[{"filterType":"PRICE_FILTER","tickSize":"0.01"},
            {"filterType":"OTHER"},{"filterType":"LOT_SIZE","stepSize":"0.001"},
            {"filterType":"PRICE_FILTER","tickSize":"0.05"}]}]}"#,
    );
    let s = resolve_scales(&v).unwrap();
    assert_eq!(s.tick_size, "0.05");
    assert_eq!(s.step_size, "0.001");
}

#[test]
fn missing_scales_are_named() {
    let none = resolve_scales(&json(r#"{"symbols":[]}"#)).unwrap_err();
    assert_eq!(none, Missing::Filters);
    assert_eq!(none.message(), "exchangeInfo: no symbol/filters");
    let tick = resolve_scales(&json(
        r#"{"symbols":[{"filters":[{"filterType":"LOT_SIZE","stepSize":"1"}]}]}"#,
    ));
    assert_eq!(tick.unwrap_err(), Missing::TickSize);
    let step = resolve_scales(&json(
        r#"{"symbols":[{"filters":[{"filterType":"PRICE_FILTER","tickSize":"1"}]}]}"#,
    ));
    assert_eq!(step.unwrap_err(), Missing::StepSize);
    let later = resolve_scales(&json(
        r#"{"symbols":[{"filters":[{"filterType":"PRICE_FILTER","tickSize":"1"},
            {"filterType":"PRICE_FILTER","tickSize":2}]}]}"#,
    ));
    assert_eq!(later.unwrap_err(), Missing::TickSize);
}

#[test]
fn a_snapshot_is_read() {
    let v = json(r#"{"lastUpdateId":7,"bids":[["1.0","2"]],"asks":[["1.1","3"],["1.2","4"]]}"#);
    let s = read_snapshot(&v).unwrap();
    assert_eq!(s.last_update_id, 7);
    assert_eq!(s.bids, vec![pair("1.0", "2")]);
    assert_eq!(s.asks, vec![pair("1.1", "3"), pair("1.2", "4")]);
}

#[test]
fn missing_parts_of_a_snapshot_are_named() {
    assert_eq!(read_snapshot(&json(r#"{"bids":[],"asks":[]}"#)).unwrap_err(), Missing::LastUpdateId);
    assert_eq!(read_snapshot(&json(r#"{"lastUpdateId":1,"asks":[]}"#)).unwrap_err(), Missing::Levels);
    assert_eq!(levels_of(Some(&json(r#"[[1,"2"]]"#))).unwrap_err(), Missing::LevelPx);
    assert_eq!(levels_of(Some(&json(r#"[["1","2"],["1"]]"#))).unwrap_err(), Missing::LevelQty);
    assert_eq!(levels_of(Some(&json("[]"))).unwrap(), vec![]);
    assert_eq!(Missing::DiffQty.message(), "diff: qty not a string");
    assert_eq!(Missing::DiffPx.message(), "diff: px not a string");
}

#[test]
fn a_snapshot_is_recorded_as_a_reset_and_levels() {
    let s = session(false, None);
    let want = vec![
        event(0, 0, Side::Bid, EventKind::Clear, 0, 0),
        event(1, 0, Side::Bid, EventKind::Level, 10_000, 1_500),
        event(2, 0, Side::Bid, EventKind::Level, 9_999, 250),
        event(3, 0, Side::Ask, EventKind::Level, 10_001, 2_000),
    ];
    assert!(s.into_events() == want);
}

#[test]
fn changes_are_joined_to_the_snapshot() {
    let mut s = session(false, None);
    assert_eq!(s.on_message(&diff(1, 10, "[]", "[]")).unwrap(), Next::Skip);
    assert_eq!(
        s.on_message(&diff(9, 12, r#"[["99.98","1"]]"#, r#"[["100.01","0.000"]]"#)).unwrap(),
        Next::Go
    );
    assert_eq!(s.on_message(&diff(13, 14, "[]", r#"[["100.02","0.5"]]"#)).unwrap(), Next::Go);
    assert_eq!(s.on_message(&diff(16, 17, "[]", "[]")).unwrap(), Next::Resnapshot);
    assert_eq!(s.resnapshot(&snapshot(20)).unwrap(), Next::Go);
    assert_eq!(s.on_message(&diff(18, 20, "[]", "[]")).unwrap(), Next::Skip);
    assert_eq!(s.on_message(&diff(22, 23, "[]", "[]")).unwrap(), Next::Resnapshot);
    let events = s.into_events();
    assert_eq!(events.len(), 11);
    assert!(events[4] == event(4, 5_000_000, Side::Bid, EventKind::Level, 9_998, 1_000));
    assert!(events[5] == event(5, 5_000_000, Side::Ask, EventKind::Level, 10_001, 0));
    assert!(events[6] == event(6, 5_000_000, Side::Ask, EventKind::Level, 10_002, 500));
    assert!(events[7].kind == EventKind::Clear);
    assert!(events.iter().enumerate().all(|(i, e)| e.seq == i as u64));
}

#[test]
fn the_join_of_a_change_follows_the_update_ids() {
    let fresh = DepthSync { last_update_id: 10, prev_u: 0, synced: false };
    assert_eq!(fresh.join(5, 10), Join::Stale);
    assert_eq!(fresh.join(11, 11), Join::Apply);
    assert_eq!(fresh.join(0, 11), Join::Apply);
    assert_eq!(fresh.join(12, 13), Join::Gap);
    let mut running = fresh;
    running.applied(12);
    assert_eq!(running.join(13, 15), Join::Apply);
    assert_eq!(running.join(12, 15), Join::Gap);
    assert_eq!(running.join(14, 15), Join::Gap);
    running.after_snapshot(30);
    assert_eq!(running, DepthSync { last_update_id: 30, prev_u: 12, synced: false });
}

#[test]
fn trades_are_recorded_where_they_are_wanted() {
    let t = json(r#"{"e":"trade","E":7,"p":"100.01","q":"0.5","m":true}"#);
    let u = json(r#"{"e":"trade","E":8,"p":"100.02","q":"1"}"#);
    let mut with = session(true, None);
    assert_eq!(with.on_message(&t).unwrap(), Next::Go);
    assert_eq!(with.on_message(&u).unwrap(), Next::Go);
    assert_eq!(with.on_message(&json(r#"{"e":"trade","E":9,"p":1,"q":"1"}"#)).unwrap(), Next::Skip);
    let events = with.into_events();
    assert!(events[4] == event(4, 7_000_000, Side::Ask, EventKind::Trade, 10_001, 500));
    assert!(events[5] == event(5, 8_000_000, Side::Bid, EventKind::Trade, 10_002, 1_000));
    let mut without = session(false, None);
    assert_eq!(without.on_message(&t).unwrap(), Next::Go);
    assert_eq!(without.into_events().len(), 4);
}

#[test]
fn a_session_stops_when_it_has_enough() {
    let mut s = session(false, Some(5));
    assert_eq!(s.on_message(&json(r#"{"result":null,"id":1}"#)).unwrap(), Next::Go);
    assert_eq!(s.on_message(&diff(11, 12, r#"[["1.00","1"]]"#, "[]")).unwrap(), Next::Stop);
    let mut full = session(false, Some(1));
    assert_eq!(full.on_message(&diff(1, 2, "[]", "[]")).unwrap(), Next::Skip);
    assert_eq!(full.on_message(&json("{}")).unwrap(), Next::Stop);
}

#[test]
fn faults_name_the_text() {
    let mut s = session(true, None);
    match s.on_message(&diff(11, 12, r#"[["1.005","1"]]"#, "[]")) {
        Err(Fault::Convert { what, text, error }) => {
            assert_eq!(what, Field::Px);
            assert_eq!(text, "1.005");
            assert_eq!(error, ConvError::OffTickGrid);
        }
        _ => panic!("off the grid"),
    }
    match s.on_message(&diff(11, 12, "[]", r#"[["1.00","x"]]"#)) {
        Err(Fault::Convert { what, text, error }) => {
            assert_eq!((what, text.as_str()), (Field::Qty, "x"));
            assert_eq!(error, ConvError::NotDecimal);
        }
        _ => panic!("not a number"),
    }
    match s.on_message(&diff(11, 12, "[[1]]", "[]")) {
        Err(Fault::Missing(m)) => assert_eq!(m, Missing::DiffPx),
        _ => panic!("no price"),
    }
    match s.on_message(&diff(11, 12, r#"[["1"]]"#, "[]")) {
        Err(Fault::Missing(m)) => assert_eq!(m, Missing::DiffQty),
        _ => panic!("no quantity"),
    }
    match s.on_message(&json(r#"{"e":"trade","E":7,"p":"0.001","q":"1"}"#)) {
        Err(Fault::Convert { what, .. }) => assert_eq!(what, Field::TradePx),
        _ => panic!("trade price"),
    }
    match s.on_message(&json(r#"{"e":"trade","E":7,"p":"1","q":"0.0001"}"#)) {
        Err(Fault::Convert { what, .. }) => assert_eq!(what, Field::TradeQty),
        _ => panic!("trade quantity"),
    }
    assert_eq!(s.into_events().len(), 4);
}

#[test]
fn an_emitter_counts_what_it_records() {
    let mut em = Emitter::new(scales());
    assert_eq!(em.seq(), 0);
    em.level(3, Side::Ask, "1.23", "0.004").unwrap();
    em.trade(4, Side::Bid, "1.24", "0.005").unwrap();
    assert_eq!(em.seq(), 2);
    assert!(em.level(0, Side::Bid, "", "1").is_err());
    let events = em.into_events();
    assert!(events[0] == event(0, 3_000_000, Side::Ask, EventKind::Level, 123, 4));
    assert!(events[1] == event(1, 4_000_000, Side::Bid, EventKind::Trade, 124, 5));
}

#[test]
fn times_that_do_not_fit_are_seen() {
    assert!(has_fitting_time(&json("{}")));
    assert!(has_fitting_time(&json(r#"{"E":18446744073709}"#)));
    assert!(!has_fitting_time(&json(r#"{"E":18446744073710}"#)));
}

#[test]
fn a_time_matters_only_where_it_is_used() {
    const LATE: &str = "18446744073710";
    let snap = Snapshot { last_update_id: 10, bids: vec![], asks: vec![] };
    let mut s = Session::start(scales(), &snap, false, None).unwrap();
    let stale = json(&format!(r#"{{"e":"depthUpdate","E":{LATE},"U":1,"u":10}}"#));
    assert!(s.can_take(&stale));
    assert!(matches!(s.on_message(&stale), Ok(Next::Skip)));
    let gap = json(&format!(r#"{{"e":"depthUpdate","E":{LATE},"U":99,"u":100}}"#));
    assert!(s.can_take(&gap));
    assert!(matches!(s.on_message(&gap), Ok(Next::Resnapshot)));
    let other = json(&format!(r#"{{"e":"kline","E":{LATE}}}"#));
    assert!(s.can_take(&other));
    assert!(matches!(s.on_message(&other), Ok(Next::Go)));
    let trade = json(&format!(r#"{{"e":"trade","E":{LATE},"p":"1","q":"1"}}"#));
    assert!(s.can_take(&trade));
    assert!(matches!(s.on_message(&trade), Ok(Next::Go)));
    let change = json(&format!(r#"{{"e":"depthUpdate","E":{LATE},"U":11,"u":12}}"#));
    assert!(!s.can_take(&change));
    let s = Session::start(scales(), &snap, true, None).unwrap();
    assert!(!s.can_take(&trade));
    assert!(s.can_take(&json(&format!(r#"{{"e":"trade","E":{LATE},"p":"1"}}"#))));
    assert!(s.can_take(&json(r#"{"e":"trade","E":1,"p":"1","q":"1"}"#)));
}

#[test]
fn frames_are_read() {
    assert!(read_frame("not json").is_none());
    assert_eq!(read_frame(r#"{"e":"x"}"#).unwrap().get_str("e"), Some("x"));
}
