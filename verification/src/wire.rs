//! What the recorder sends and what it notes beside a recording.

use crate::capture::Scales;
use crate::cli::RecorderCli;
use crate::json::{push_quoted_list, quote, quoted, quoted_list};
use crate::text::{copy_text, decimal, lowercase, push_decimal, texts, to_lowercase};
use vstd::prelude::*;

verus! {

/// The version of the recordings.
pub const RECORDER_VERSION: u64 = 1;

/// The host of the exchange's requests.
pub const REST_HOST: &'static str = "api.binance.com";

/// Where the streams are served.
pub const WS_URL: &'static str = "wss://stream.binance.com:9443/ws";

/// The request for the exchange's information about a symbol.
pub open spec fn info_request(symbol: Seq<char>) -> Seq<char> {
    "/api/v3/exchangeInfo?symbol="@ + symbol
}

/// The request for the exchange's information about a symbol.
pub fn exchange_info_path(symbol: &str) -> (s: String)
    ensures
        s@ == info_request(symbol@),
{
    let mut s = copy_text("/api/v3/exchangeInfo?symbol=");
    s.append(symbol);
    s
}

/// The request for a snapshot of a symbol's book.
pub open spec fn depth_request(symbol: Seq<char>) -> Seq<char> {
    "/api/v3/depth?symbol="@ + symbol + "&limit=1000"@
}

/// The request for a snapshot of a symbol's book.
pub fn depth_path(symbol: &str) -> (s: String)
    ensures
        s@ == depth_request(symbol@),
{
    let mut s = copy_text("/api/v3/depth?symbol=");
    s.append(symbol);
    s.append("&limit=1000");
    s
}

/// Where a small snapshot of a symbol's book is found.
pub fn snapshot_url(symbol: &str) -> (s: String)
    ensures
        s@ == "https://api.binance.com/api/v3/depth?symbol="@ + symbol@ + "&limit=100"@,
{
    let mut s = copy_text("https://api.binance.com/api/v3/depth?symbol=");
    s.append(symbol);
    s.append("&limit=100");
    s
}

/// An HTTP request for a path, after which the connection is closed.
pub fn http_request(path: &str) -> (s: String)
    ensures
        s@ == "GET "@ + path@ + " HTTP/1.1\r\nHost: "@ + REST_HOST@
            + "\r\nUser-Agent: web3-terminal-recorder/1\r\nAccept: application/json\r\nConnection: close\r\n\r\n"@,
{
    let mut s = copy_text("GET ");
    s.append(path);
    s.append(" HTTP/1.1\r\nHost: ");
    s.append(REST_HOST);
    s.append(
        "\r\nUser-Agent: web3-terminal-recorder/1\r\nAccept: application/json\r\nConnection: close\r\n\r\n",
    );
    s
}

/// The streams of a symbol that a recording follows.
pub open spec fn stream_names(symbol: Seq<char>, with_trades: bool) -> Seq<Seq<char>> {
    if with_trades {
        seq![lowercase(symbol) + "@depth@100ms"@, lowercase(symbol) + "@trade"@]
    } else {
        seq![lowercase(symbol) + "@depth@100ms"@]
    }
}

/// The streams of a symbol that a recording follows.
pub fn subscribe_params(symbol: &str, with_trades: bool) -> (r: Vec<String>)
    ensures
        texts(r@) == stream_names(symbol@, with_trades),
{
    let mut r: Vec<String> = Vec::new();
    let mut depth = to_lowercase(symbol);
    depth.append("@depth@100ms");
    r.push(depth);
    if with_trades {
        let mut trade = to_lowercase(symbol);
        trade.append("@trade");
        r.push(trade);
    }
    assert(texts(r@) =~= stream_names(symbol@, with_trades));
    r
}

/// The request that subscribes to a recording's streams.
pub fn subscribe_request(symbol: &str, with_trades: bool) -> (s: String)
    ensures
        s@ == "{\"id\":1,\"method\":\"SUBSCRIBE\",\"params\":"@ + quoted_list(
            stream_names(symbol@, with_trades),
        ) + "}"@,
{
    let params = subscribe_params(symbol, with_trades);
    let mut s = copy_text("{\"id\":1,\"method\":\"SUBSCRIBE\",\"params\":");
    push_quoted_list(&mut s, params.as_slice());
    s.append("}");
    s
}

/// The stream address and the subscription, as they are noted.
pub open spec fn stream_note(symbol: Seq<char>, with_trades: bool) -> Seq<char> {
    if with_trades {
        WS_URL@ + " (SUBSCRIBE "@ + lowercase(symbol) + "@depth@100ms/"@ + lowercase(symbol)
            + "@trade)"@
    } else {
        WS_URL@ + " (SUBSCRIBE "@ + lowercase(symbol) + "@depth@100ms)"@
    }
}

/// The stream address and the subscription, as they are noted.
fn note_stream(symbol: &str, with_trades: bool) -> (s: String)
    ensures
        s@ == stream_note(symbol@, with_trades),
{
    let lower = to_lowercase(symbol);
    let mut s = copy_text(WS_URL);
    s.append(" (SUBSCRIBE ");
    s.append(lower.as_str());
    if with_trades {
        s.append("@depth@100ms/");
        s.append(lower.as_str());
        s.append("@trade)");
    } else {
        s.append("@depth@100ms)");
    }
    s
}

/// The address of a request, as it is noted.
pub open spec fn endpoint(path: Seq<char>) -> Seq<char> {
    "https://"@ + REST_HOST@ + path
}

/// The address of a request, as it is noted.
fn note_endpoint(path: &str) -> (s: String)
    ensures
        s@ == endpoint(path@),
{
    let mut s = copy_text("https://");
    s.append(REST_HOST);
    s.append(path);
    s
}

/// The note beside a recording: a JSON object with its names in order, indented by
/// two.
pub open spec fn recording_note(
    symbol: Seq<char>,
    duration_secs: u64,
    with_trades: bool,
    scales: (Seq<char>, Seq<char>),
    captured_at: Seq<char>,
    count: nat,
) -> Seq<char> {
    "{\n  \"binance_endpoints\": [\n    "@ + quoted(endpoint(info_request(symbol))) + ",\n    "@
        + quoted(endpoint(depth_request(symbol))) + ",\n    "@ + quoted(
        stream_note(symbol, with_trades),
    ) + "\n  ],\n  \"captured_at_utc\": "@ + quoted(captured_at) + ",\n  \"duration_secs\": "@
        + decimal(duration_secs as nat)
        + ",\n  \"kind\": \"binance-recorded\",\n  \"record_count\": "@ + decimal(count)
        + ",\n  \"recorder_version\": "@ + decimal(RECORDER_VERSION as nat)
        + ",\n  \"step_size\": "@ + quoted(scales.1) + ",\n  \"symbol\": "@ + quoted(symbol)
        + ",\n  \"tick_size\": "@ + quoted(scales.0) + ",\n  \"with_trades\": "@ + (
    if with_trades {
        "true"@
    } else {
        "false"@
    }) + "\n}\n"@
}

/// The note beside a recording.
pub fn write_meta(
    cli: &RecorderCli,
    scales: &Scales,
    captured_at: &str,
    record_count: usize,
) -> (s: String)
    ensures
        s@ == recording_note(
            cli.symbol@,
            cli.duration_secs,
            cli.with_trades,
            scales@,
            captured_at@,
            record_count as nat,
        ),
{
    let symbol = cli.symbol.as_str();
    let mut s = copy_text("{\n  \"binance_endpoints\": [\n    ");
    s.append(quote(note_endpoint(exchange_info_path(symbol).as_str()).as_str()).as_str());
    s.append(",\n    ");
    s.append(quote(note_endpoint(depth_path(symbol).as_str()).as_str()).as_str());
    s.append(",\n    ");
    s.append(quote(note_stream(symbol, cli.with_trades).as_str()).as_str());
    s.append("\n  ],\n  \"captured_at_utc\": ");
    s.append(quote(captured_at).as_str());
    s.append(",\n  \"duration_secs\": ");
    push_decimal(&mut s, cli.duration_secs);
    s.append(",\n  \"kind\": \"binance-recorded\",\n  \"record_count\": ");
    push_decimal(&mut s, record_count as u64);
    s.append(",\n  \"recorder_version\": ");
    push_decimal(&mut s, RECORDER_VERSION);
    s.append(",\n  \"step_size\": ");
    s.append(quote(scales.step_size.as_str()).as_str());
    s.append(",\n  \"symbol\": ");
    s.append(quote(symbol).as_str());
    s.append(",\n  \"tick_size\": ");
    s.append(quote(scales.tick_size.as_str()).as_str());
    s.append(",\n  \"with_trades\": ");
    s.append(
        if cli.with_trades {
            "true"
        } else {
            "false"
        },
    );
    s.append("\n}\n");
    s
}

} // verus!
