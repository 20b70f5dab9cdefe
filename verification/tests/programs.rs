use lob::calendar::{civil_from_days, iso8601_utc, Date};
use lob::capture::Scales;
use lob::cli::{parse_cli, parse_out, CliError};
use lob::event::Side;
use lob::gen_cli::{canon_cfg, jobs, meta_json, parse_profile, profile_name, sibling_meta};
use lob::price::{Px, Qty};
use lob::synthetic::{generate, GenConfig, Profile};
use lob::text::{parse_number, NumberError};
use lob::wire::{depth_path, exchange_info_path, http_request, snapshot_url, subscribe_request, write_meta};

fn args(line: &str) -> Vec<String> {
    line.split_whitespace().map(str::to_string).collect()
}

#[test]
fn the_recorder_reads_its_arguments() {
    let c = parse_cli(&args(
        "--symbol btcusdt --duration-secs 60 --out a.mdf --with-trades --max-events +7 --out b.mdf",
    ))
    .unwrap();
    assert_eq!(c.symbol, "BTCUSDT");
    assert_eq!((c.duration_secs, c.max_events, c.with_trades), (60, Some(7), true));
    assert_eq!(c.out, "b.mdf");
}

#[test]
fn the_recorder_says_what_is_wrong() {
    let message = |line: &str| parse_cli(&args(line)).unwrap_err().message();
    assert_eq!(message("--symbol x --duration-secs 1"), "missing --out");
    assert_eq!(message("--symbol x --out y"), "missing --duration-secs");
    assert_eq!(message("--out y"), "missing --symbol");
    assert_eq!(message("--symbol"), "missing value for flag");
    assert_eq!(message("--wat"), "unknown argument: --wat");
    assert_eq!(message("--duration-secs 1x"), "invalid digit found in string");
    assert_eq!(
        message("--max-events 99999999999999999999"),
        "number too large to fit in target type"
    );
}

#[test]
fn numbers_are_read_as_std_reads_them() {
    for s in ["", "+", "-", "-1", "0", "+7", "007", "18446744073709551615", "18446744073709551616",
        "99999999999999999999x", "1x99999999999999999999", "12 ", "١"]
    {
        let want = s.parse::<u64>();
        match parse_number(s, u64::MAX) {
            Ok(n) => assert_eq!(Ok(n), want),
            Err(e) => assert_eq!(e.message(), want.unwrap_err().to_string(), "{s:?}"),
        }
    }
    assert_eq!(parse_number("256", 255), Err(NumberError::TooLarge));
    assert_eq!(parse_number("", 255), Err(NumberError::Empty));
}

#[test]
fn the_generator_reads_its_arguments() {
    let j = jobs(&args("--profile burst --seed 5 --events 10 --out x/y.mdf")).unwrap();
    assert_eq!(j.len(), 1);
    assert_eq!(j[0].mdf, "x/y.mdf");
    assert_eq!(j[0].meta, "x/y.meta.json");
    assert_eq!(j[0].cfg.profile, Profile::Burst);
    assert_eq!((j[0].cfg.seed, j[0].cfg.events), (5, 10));
    assert_eq!((j[0].cfg.mid, j[0].cfg.band, j[0].cfg.max_qty), (Px(65_000), 64, Qty(1_024)));
    assert!(j[0].cfg.is_admissible());
    let all = jobs(&args("--seed x --all")).unwrap();
    assert_eq!(all.len(), 3);
    assert_eq!(all[0].mdf, "feed/corpus/steady-s1-100k.mdf");
    assert_eq!(all[1].meta, "feed/corpus/burst-s1-100k.meta.json");
    assert_eq!(all[2].cfg.events, 100_000);
    assert_eq!(all[2].cfg.profile, Profile::FlashCrash);
}

#[test]
fn the_generator_says_what_is_wrong() {
    let message = |line: &str| jobs(&args(line)).unwrap_err().message();
    assert_eq!(message("--seed 1"), "missing --profile");
    assert_eq!(message("--profile steady"), "missing --out");
    assert_eq!(message("--profile steady --out x"), "missing --seed");
    assert_eq!(message("--profile steady --out x --seed 1"), "missing --events");
    assert_eq!(message("--profile wild"), "unknown profile: wild (steady|burst|flashcrash)");
    assert_eq!(message("--events"), "missing value for flag");
    assert_eq!(message("--seed -1"), "invalid digit found in string");
    assert!(matches!(jobs(&args("what")), Err(CliError::Unknown(_))));
}

#[test]
fn profiles_have_names() {
    for p in [Profile::Steady, Profile::Burst, Profile::FlashCrash] {
        assert_eq!(parse_profile(profile_name(p)).unwrap(), p);
        assert_eq!(generate(&GenConfig { events: 5, ..canon_cfg(p) }).len(), 5);
    }
}

#[test]
fn configurations_out_of_range_are_seen() {
    let c = canon_cfg(Profile::FlashCrash);
    assert!(c.is_admissible());
    assert!(!GenConfig { mid: Px(i64::MAX), ..c }.is_admissible());
    assert!(!GenConfig { band: i64::MIN, ..c }.is_admissible());
    assert!(!GenConfig { band: i64::MAX / 2, mid: Px(0), ..c }.is_admissible());
    assert!(!GenConfig { start_ts: u64::MAX, ..c }.is_admissible());
}

#[test]
fn notes_stand_beside_corpora() {
    assert_eq!(sibling_meta("a.mdf"), "a.meta.json");
    assert_eq!(sibling_meta("a"), "a.meta.json");
    assert_eq!(sibling_meta(".mdf"), ".meta.json");
    assert_eq!(
        meta_json("steady", &canon_cfg(Profile::Steady)),
        "{\n  \"kind\": \"synthetic\",\n  \"profile\": \"steady\",\n  \"seed\": 1,\n  \"events\": 100000,\n  \"mid\": 65000,\n  \"band\": 64,\n  \"max_qty\": 1024,\n  \"start_ts\": 0,\n  \"generator_version\": 1\n}\n"
    );
}

#[test]
fn results_go_where_the_last_flag_says() {
    assert_eq!(parse_out(&args("--core 1 --out a --out b x")).as_deref(), Some("b"));
    assert_eq!(parse_out(&args("--out --out")).as_deref(), Some("--out"));
    assert_eq!(parse_out(&args("--out")), None);
}

#[test]
fn dates_of_the_calendar() {
    let date = |year, month, day| Date { year, month, day };
    assert_eq!(civil_from_days(0), date(1970, 1, 1));
    assert_eq!(civil_from_days(58), date(1970, 2, 28));
    assert_eq!(civil_from_days(59), date(1970, 3, 1));
    assert_eq!(civil_from_days(11_016), date(2000, 2, 29));
    assert_eq!(civil_from_days(11_017), date(2000, 3, 1));
    assert_eq!(civil_from_days(47_540), date(2100, 2, 28));
    assert_eq!(civil_from_days(47_541), date(2100, 3, 1));
    let mut last = civil_from_days(0);
    for n in 1..200_000 {
        let next = civil_from_days(n);
        assert!((next.year, next.month, next.day) > (last.year, last.month, last.day));
        last = next;
    }
}

#[test]
fn moments_are_written() {
    assert_eq!(iso8601_utc(0), "1970-01-01T00:00:00Z");
    assert_eq!(iso8601_utc(1_709_251_199), "2024-02-29T23:59:59Z");
    assert_eq!(iso8601_utc(1_709_251_200), "2024-03-01T00:00:00Z");
    assert_eq!(iso8601_utc(253_402_300_800), "10000-01-01T00:00:00Z");
}

#[test]
fn requests_of_the_recorder() {
    assert_eq!(exchange_info_path("BTCUSDT"), "/api/v3/exchangeInfo?symbol=BTCUSDT");
    assert_eq!(depth_path("BTCUSDT"), "/api/v3/depth?symbol=BTCUSDT&limit=1000");
    assert_eq!(snapshot_url("X"), "https://api.binance.com/api/v3/depth?symbol=X&limit=100");
    assert_eq!(
        http_request("/p"),
        "GET /p HTTP/1.1\r\nHost: api.binance.com\r\nUser-Agent: web3-terminal-recorder/1\r\nAccept: application/json\r\nConnection: close\r\n\r\n"
    );
    assert_eq!(
        subscribe_request("BTCUSDT", true),
        r#"{"id":1,"method":"SUBSCRIBE","params":["btcusdt@depth@100ms","btcusdt@trade"]}"#
    );
    assert_eq!(
        subscribe_request("BTCUSDT", false),
        r#"{"id":1,"method":"SUBSCRIBE","params":["btcusdt@depth@100ms"]}"#
    );
}

#[test]
fn the_note_of_a_recording_is_pretty_json() {
    let cli = parse_cli(&args("--symbol btcusdt --duration-secs 60 --out a.mdf --with-trades")).unwrap();
    let scales = Scales { tick_size: "0.01".to_string(), step_size: "0.\"1".to_string() };
    let text = write_meta(&cli, &scales, "2024-01-01T00:00:00Z", 42);
    let value: serde_json::Value = serde_json::from_str(&text).unwrap();
    assert_eq!(text, format!("{}\n", serde_json::to_string_pretty(&value).unwrap()));
    assert_eq!(value["record_count"], 42);
    assert_eq!(value["step_size"], "0.\"1");
    assert_eq!(value["kind"], "binance-recorded");
    assert_eq!(
        value["binance_endpoints"][2],
        "wss://stream.binance.com:9443/ws (SUBSCRIBE btcusdt@depth@100ms/btcusdt@trade)"
    );
    assert_eq!(Side::Bid.opposite(), Side::Ask);
}
