//! Streams: which topics a collector subscribes to and on which connection, the
//! commands that fill and read the streams of the store, and the waits between
//! attempts to connect.

use crate::market::{MAXLEN, RECONNECT_BASE_MS, RECONNECT_MAX_MS};
use crate::text::{
    copy_text, decimal, joined, lowercase, own_text, push_decimal, push_joined, same_text, texts,
    to_lowercase,
};
use vstd::prelude::*;

verus! {

/// The topics of some symbols: each symbol in lower case, and what follows it.
pub open spec fn topics_of(symbols: Seq<Seq<char>>, suffix: Seq<char>) -> Seq<Seq<char>> {
    symbols.map_values(|s: Seq<char>| lowercase(s) + suffix)
}

/// The topics of some symbols.
pub fn topics(symbols: &[String], suffix: &str) -> (r: Vec<String>)
    ensures
        texts(r@) == topics_of(texts(symbols@), suffix@),
{
    let mut r: Vec<String> = Vec::new();
    let mut i: usize = 0;
    while i < symbols.len()
        invariant
            i <= symbols@.len(),
            r@.len() == i,
            forall|k: int| 0 <= k < i ==> (#[trigger] r@[k])@ == lowercase(symbols@[k]@) + suffix@,
        decreases symbols@.len() - i,
    {
        let mut t = to_lowercase(symbols[i].as_str());
        t.append(suffix);
        r.push(t);
        i += 1;
    }
    assert(texts(r@) =~= topics_of(texts(symbols@), suffix@));
    r
}

/// How many connections `n` topics take at `max` each.
pub open spec fn connections(n: int, max: int) -> int {
    (n + max - 1) / max
}

/// The topics of connection `k`, at `max` each.
pub open spec fn share_of<T>(all: Seq<T>, max: int, k: int) -> Seq<T> {
    all.subrange(
        k * max,
        if (k + 1) * max <= all.len() {
            (k + 1) * max
        } else {
            all.len() as int
        },
    )
}

/// Splits topics over connections, in order, `max` to each but the last.
pub fn chunked(all: Vec<String>, max: usize) -> (r: Vec<Vec<String>>)
    requires
        max > 0,
    ensures
        r@.len() == connections(all@.len() as int, max as int),
        forall|k: int|
            0 <= k < r@.len() ==> texts((#[trigger] r@[k])@) == share_of(
                texts(all@),
                max as int,
                k,
            ),
{
    let mut r: Vec<Vec<String>> = Vec::new();
    let n: usize = all.len();
    let mut i: usize = 0;
    proof {
        lemma_connections_none(max as int);
        assert(0 * max == 0) by (nonlinear_arith);
    }
    while i < n
        invariant
            n == all@.len(),
            i <= n,
            max > 0,
            i < n ==> i == r@.len() * max,
            i == n ==> r@.len() == connections(n as int, max as int),
            forall|k: int|
                0 <= k < r@.len() ==> texts((#[trigger] r@[k])@) == share_of(
                    texts(all@),
                    max as int,
                    k,
                ),
        decreases n - i,
    {
        let end: usize = if n - i > max {
            i + max
        } else {
            n
        };
        let ghost k0 = r@.len() as int;
        let mut part: Vec<String> = Vec::new();
        let mut j: usize = i;
        while j < end
            invariant
                n == all@.len(),
                i <= j <= end <= n,
                part@.len() == j - i,
                forall|k: int| 0 <= k < part@.len() ==> (#[trigger] part@[k])@ == all@[i + k]@,
            decreases end - j,
        {
            part.push(copy_text(all[j].as_str()));
            j += 1;
        }
        proof {
            assert((k0 + 1) * max == k0 * max + max) by (nonlinear_arith);
            assert(texts(part@) =~= share_of(texts(all@), max as int, k0));
            lemma_connections(n as int, max as int, k0, end as int);
        }
        r.push(part);
        i = end;
    }
    r
}

proof fn lemma_connections_none(max: int)
    requires
        max > 0,
    ensures
        connections(0, max) == 0,
{
    assert((max - 1) / max == 0) by (nonlinear_arith)
        requires
            max > 0,
    ;
}

proof fn lemma_connections(n: int, max: int, k: int, end: int)
    requires
        max > 0,
        0 <= k,
        k * max < n,
        end == (if n - k * max > max {
            k * max + max
        } else {
            n
        }),
    ensures
        end == n ==> k + 1 == connections(n, max),
{
    let q = (n + max - 1) / max;
    let r = (n + max - 1) % max;
    assert(n + max - 1 == q * max + r && 0 <= r < max) by (nonlinear_arith)
        requires
            max > 0,
            q == (n + max - 1) / max,
            r == (n + max - 1) % max,
    ;
    if n - k * max <= max {
        assert(q == k + 1) by (nonlinear_arith)
            requires
                n + max - 1 == q * max + r,
                0 <= r < max,
                0 < n - k * max <= max,
                max > 0,
        ;
    }
}

/// Every topic is subscribed to: topic `i` stands in the share of one of the
/// connections.
pub proof fn law_every_topic_has_a_connection<T>(all: Seq<T>, max: int, i: int)
    requires
        max > 0,
        0 <= i < all.len(),
    ensures
        0 <= i / max < connections(all.len() as int, max),
        0 <= i % max < share_of(all, max, i / max).len(),
        share_of(all, max, i / max)[i % max] == all[i],
{
    let n = all.len() as int;
    let k0 = i / max;
    let j0 = i % max;
    assert(i == k0 * max + j0 && 0 <= j0 < max && 0 <= k0) by (nonlinear_arith)
        requires
            max > 0,
            i >= 0,
            k0 == i / max,
            j0 == i % max,
    ;
    let q = (n + max - 1) / max;
    let r = (n + max - 1) % max;
    assert(n + max - 1 == q * max + r && 0 <= r < max) by (nonlinear_arith)
        requires
            max > 0,
            q == (n + max - 1) / max,
            r == (n + max - 1) % max,
    ;
    assert(k0 < q) by (nonlinear_arith)
        requires
            n + max - 1 == q * max + r,
            0 <= r < max,
            k0 * max <= i < n,
            max > 0,
    ;
    assert((k0 + 1) * max == k0 * max + max) by (nonlinear_arith);
}

/// No topic is subscribed to twice: what stands at place `j` of the share of
/// connection `k` is the topic that belongs there and nowhere else.
pub proof fn law_no_topic_has_two_connections<T>(all: Seq<T>, max: int, k: int, j: int)
    requires
        max > 0,
        0 <= k < connections(all.len() as int, max),
        0 <= j < share_of(all, max, k).len(),
    ensures
        share_of(all, max, k)[j] == all[k * max + j],
        (k * max + j) / max == k,
        (k * max + j) % max == j,
{
    let n = all.len() as int;
    let q = (n + max - 1) / max;
    let r = (n + max - 1) % max;
    assert((k + 1) * max == k * max + max) by (nonlinear_arith);
    assert(n + max - 1 == q * max + r && 0 <= r < max) by (nonlinear_arith)
        requires
            max > 0,
            q == (n + max - 1) / max,
            r == (n + max - 1) % max,
    ;
    assert(0 <= k * max && k * max < n) by (nonlinear_arith)
        requires
            n + max - 1 == q * max + r,
            0 <= r < max,
            0 <= k < q,
            max > 0,
    ;
    assert((k * max + j) / max == k && (k * max + j) % max == j) by (nonlinear_arith)
        requires
            0 <= j < max,
            max > 0,
    ;
}

/// Where the combined streams are served.
pub const COMBINED_BASE: &'static str = "wss://stream.binance.com:9443/stream?streams=";

/// The address of a connection for some topics.
pub open spec fn combined_url(topics: Seq<Seq<char>>) -> Seq<char> {
    COMBINED_BASE@ + joined(topics, "/"@)
}

/// The address of a connection for some topics.
pub fn combined_stream_url(topics: &[String]) -> (s: String)
    ensures
        s@ == combined_url(texts(topics@)),
{
    let mut s = copy_text(COMBINED_BASE);
    push_joined(&mut s, topics, "/");
    s
}

/// An address in the form that the `url` crate gives it; none where it is not one.
pub uninterp spec fn normalized_url(s: Seq<char>) -> Option<Seq<char>>;

/// `url::Url::parse`: the address that a text denotes, in its normal form, or none where
/// it denotes none. Which form belongs to which text is [`normalized_url`].
#[verifier::external_body]
fn parse_url(s: &str) -> (r: Option<String>)
    ensures
        own_text(r) == normalized_url(s@),
{
    url::Url::parse(s).ok().map(String::from)
}

/// The address of a connection for some topics, in its normal form; none where the
/// topics make it no address.
pub fn stream_address(topics: &[String]) -> (r: Option<String>)
    ensures
        own_text(r) == normalized_url(combined_url(texts(topics@))),
{
    let s = combined_stream_url(topics);
    parse_url(s.as_str())
}

/// An address in its normal form; none where it is not one.
pub fn address(s: &str) -> (r: Option<String>)
    ensures
        own_text(r) == normalized_url(s@),
{
    parse_url(s)
}

/// The command that adds an entry to a stream, up to its payload.
pub open spec fn add_command(key: Seq<char>, capped: bool) -> Seq<Seq<char>> {
    if capped {
        seq!["XADD"@, key, "MAXLEN"@, "~"@, decimal(MAXLEN as nat), "*"@, "data"@]
    } else {
        seq!["XADD"@, key, "*"@, "data"@]
    }
}

/// The command that adds an entry to a stream, up to its payload. Where `capped`,
/// the stream is kept to about [`MAXLEN`] entries.
pub fn xadd(key: &str, capped: bool) -> (r: Vec<String>)
    ensures
        texts(r@) == add_command(key@, capped),
{
    let mut r: Vec<String> = Vec::new();
    r.push(copy_text("XADD"));
    r.push(copy_text(key));
    if capped {
        r.push(copy_text("MAXLEN"));
        r.push(copy_text("~"));
        let mut n = String::new();
        push_decimal(&mut n, MAXLEN);
        assert(n@ =~= decimal(MAXLEN as nat));
        r.push(n);
    }
    r.push(copy_text("*"));
    r.push(copy_text("data"));
    assert(texts(r@) =~= add_command(key@, capped));
    r
}

/// The command by which worker `id` of the group `arb` reads the new entries of
/// some streams.
pub open spec fn read_command(id: nat, streams: Seq<Seq<char>>) -> Seq<Seq<char>> {
    seq![
        "XREADGROUP"@,
        "GROUP"@,
        "arb"@,
        "worker"@ + decimal(id),
        "BLOCK"@,
        "200"@,
        "COUNT"@,
        "200"@,
        "STREAMS"@,
    ] + streams + Seq::new(streams.len(), |i: int| ">"@)
}

/// The command by which a worker reads the new entries of some streams.
pub fn xreadgroup(id: u64, streams: &[String]) -> (r: Vec<String>)
    ensures
        texts(r@) == read_command(id as nat, texts(streams@)),
{
    let mut r: Vec<String> = Vec::new();
    r.push(copy_text("XREADGROUP"));
    r.push(copy_text("GROUP"));
    r.push(copy_text("arb"));
    let mut w = copy_text("worker");
    push_decimal(&mut w, id);
    r.push(w);
    r.push(copy_text("BLOCK"));
    r.push(copy_text("200"));
    r.push(copy_text("COUNT"));
    r.push(copy_text("200"));
    r.push(copy_text("STREAMS"));
    let ghost head = texts(r@);
    let mut i: usize = 0;
    while i < streams.len()
        invariant
            i <= streams@.len(),
            head.len() == 9,
            r@.len() == 9 + i,
            forall|k: int| 0 <= k < 9 ==> (#[trigger] r@[k])@ == head[k],
            forall|k: int| 9 <= k < 9 + i ==> (#[trigger] r@[k])@ == streams@[k - 9]@,
        decreases streams@.len() - i,
    {
        r.push(copy_text(streams[i].as_str()));
        i += 1;
    }
    let n: usize = streams.len();
    let mut j: usize = 0;
    while j < n
        invariant
            j <= n == streams@.len(),
            head.len() == 9,
            r@.len() == 9 + n + j,
            forall|k: int| 0 <= k < 9 ==> (#[trigger] r@[k])@ == head[k],
            forall|k: int| 9 <= k < 9 + n ==> (#[trigger] r@[k])@ == streams@[k - 9]@,
            forall|k: int| 9 + n <= k < 9 + n + j ==> (#[trigger] r@[k])@ == ">"@,
        decreases n - j,
    {
        r.push(copy_text(">"));
        j += 1;
    }
    assert(texts(r@) =~= read_command(id as nat, texts(streams@)));
    r
}

/// The command that makes the group `arb` on a stream, from its first entry on, and
/// the stream itself where there is none.
pub open spec fn group_command(stream: Seq<char>) -> Seq<Seq<char>> {
    seq!["XGROUP"@, "CREATE"@, stream, "arb"@, "0"@, "MKSTREAM"@]
}

/// The command that makes the group on a stream.
pub fn xgroup(stream: &str) -> (r: Vec<String>)
    ensures
        texts(r@) == group_command(stream@),
{
    let mut r: Vec<String> = Vec::new();
    r.push(copy_text("XGROUP"));
    r.push(copy_text("CREATE"));
    r.push(copy_text(stream));
    r.push(copy_text("arb"));
    r.push(copy_text("0"));
    r.push(copy_text("MKSTREAM"));
    assert(texts(r@) =~= group_command(stream@));
    r
}

/// The command that tells the group `arb` that an entry was dealt with.
pub open spec fn ack_command(stream: Seq<char>, id: Seq<char>) -> Seq<Seq<char>> {
    seq!["XACK"@, stream, "arb"@, id]
}

/// The command that tells the group that an entry was dealt with.
pub fn xack(stream: &str, id: &str) -> (r: Vec<String>)
    ensures
        texts(r@) == ack_command(stream@, id@),
{
    let mut r: Vec<String> = Vec::new();
    r.push(copy_text("XACK"));
    r.push(copy_text(stream));
    r.push(copy_text("arb"));
    r.push(copy_text(id));
    assert(texts(r@) =~= ack_command(stream@, id@));
    r
}

/// The command that reads what follows the given ids on some streams.
pub open spec fn follow_command(streams: Seq<Seq<char>>, ids: Seq<Seq<char>>) -> Seq<Seq<char>> {
    seq!["XREAD"@, "COUNT"@, "500"@, "BLOCK"@, "200"@, "STREAMS"@] + streams + ids
}

/// How far some streams were read: of each the id of the last entry that was seen.
#[derive(Debug)]
pub struct Cursors {
    streams: Vec<String>,
    ids: Vec<String>,
}

impl Cursors {
    /// The streams.
    pub closed spec fn streams(self) -> Seq<Seq<char>> {
        texts(self.streams@)
    }

    /// The id of the last entry that was seen, stream by stream.
    pub closed spec fn ids(self) -> Seq<Seq<char>> {
        texts(self.ids@)
    }

    /// Every stream has its id.
    pub open spec fn wf(self) -> bool {
        self.ids().len() == self.streams().len()
    }

    /// Before the first entry of each stream.
    pub fn new(streams: Vec<String>) -> (c: Self)
        ensures
            c.wf(),
            c.streams() == texts(streams@),
            forall|i: int| 0 <= i < c.ids().len() ==> #[trigger] c.ids()[i] == "0"@,
    {
        let mut ids: Vec<String> = Vec::new();
        let mut i: usize = 0;
        while i < streams.len()
            invariant
                i <= streams@.len(),
                ids@.len() == i,
                forall|k: int| 0 <= k < i ==> (#[trigger] ids@[k])@ == "0"@,
            decreases streams@.len() - i,
        {
            ids.push(copy_text("0"));
            i += 1;
        }
        Cursors { streams, ids }
    }

    /// An entry with this id was seen on a stream. A stream that is not among them is
    /// passed over.
    pub fn advance(&mut self, stream: &str, id: &str)
        requires
            old(self).wf(),
        ensures
            final(self).wf(),
            final(self).streams() == old(self).streams(),
            forall|i: int|
                0 <= i < old(self).ids().len() ==> #[trigger] final(self).ids()[i] == (
                if old(self).streams()[i] == stream@ {
                    id@
                } else {
                    old(self).ids()[i]
                }),
    {
        let mut i: usize = 0;
        let ghost before = self.ids();
        while i < self.streams.len()
            invariant
                i <= self.streams@.len(),
                self.streams == old(self).streams,
                self.ids@.len() == self.streams@.len(),
                before == old(self).ids(),
                before.len() == self.ids@.len(),
                forall|k: int|
                    0 <= k < self.ids@.len() ==> (#[trigger] self.ids@[k])@ == (if k < i
                        && self.streams@[k]@ == stream@ {
                        id@
                    } else {
                        before[k]
                    }),
            decreases self.streams@.len() - i,
        {
            if same_text(self.streams[i].as_str(), stream) {
                self.ids[i] = copy_text(id);
            }
            i += 1;
        }
    }

    /// The command that reads on.
    pub fn xread(&self) -> (r: Vec<String>)
        ensures
            texts(r@) == follow_command(self.streams(), self.ids()),
    {
        let mut r: Vec<String> = Vec::new();
        r.push(copy_text("XREAD"));
        r.push(copy_text("COUNT"));
        r.push(copy_text("500"));
        r.push(copy_text("BLOCK"));
        r.push(copy_text("200"));
        r.push(copy_text("STREAMS"));
        push_each(&mut r, &self.streams);
        push_each(&mut r, &self.ids);
        assert(texts(r@) =~= follow_command(self.streams(), self.ids()));
        r
    }
}

/// Appends texts to a list.
fn push_each(r: &mut Vec<String>, more: &Vec<String>)
    ensures
        texts(final(r)@) == texts(old(r)@) + texts(more@),
{
    let ghost before = r@;
    let mut i: usize = 0;
    while i < more.len()
        invariant
            i <= more@.len(),
            r@.len() == before.len() + i,
            forall|k: int| 0 <= k < before.len() ==> #[trigger] r@[k] == before[k],
            forall|k: int|
                before.len() <= k < before.len() + i ==> (#[trigger] r@[k])@ == more@[k
                    - before.len()]@,
        decreases more@.len() - i,
    {
        r.push(copy_text(more[i].as_str()));
        i += 1;
    }
    assert(texts(r@) =~= texts(before) + texts(more@));
}

/// The wait that follows a wait: twice as long, up to the longest.
pub open spec fn next_wait(ms: int) -> int {
    if 2 * ms <= RECONNECT_MAX_MS {
        2 * ms
    } else {
        RECONNECT_MAX_MS as int
    }
}

/// The wait after `n` failures.
pub open spec fn wait_after(n: nat) -> int
    decreases n,
{
    if n == 0 {
        RECONNECT_BASE_MS as int
    } else {
        next_wait(wait_after((n - 1) as nat))
    }
}

/// How long to wait before the next attempt to connect.
#[derive(Clone, Copy, PartialEq, Eq, Structural, Debug)]
pub struct Backoff {
    wait_ms: u64,
}

impl Backoff {
    /// The wait, in milliseconds.
    pub closed spec fn wait(self) -> int {
        self.wait_ms as int
    }

    /// The shortest wait.
    pub fn new() -> (b: Self)
        ensures
            b.wait() == wait_after(0),
    {
        Backoff { wait_ms: RECONNECT_BASE_MS }
    }

    /// The wait, in milliseconds.
    pub fn millis(&self) -> (ms: u64)
        ensures
            ms == self.wait(),
    {
        self.wait_ms
    }

    /// Makes the next wait twice as long, up to the longest.
    pub fn lengthen(&mut self)
        requires
            old(self).wait() <= RECONNECT_MAX_MS,
        ensures
            final(self).wait() == next_wait(old(self).wait()),
            final(self).wait() <= RECONNECT_MAX_MS,
    {
        let twice: u64 = 2 * self.wait_ms;
        self.wait_ms = if twice <= RECONNECT_MAX_MS {
            twice
        } else {
            RECONNECT_MAX_MS
        };
    }

    /// Goes back to the shortest wait.
    pub fn reset(&mut self)
        ensures
            final(self).wait() == wait_after(0),
    {
        self.wait_ms = RECONNECT_BASE_MS;
    }
}

/// Waits never get shorter from failure to failure, and stay between half a second
/// and a minute.
pub proof fn law_waits_grow_up_to_a_minute(n: nat)
    ensures
        RECONNECT_BASE_MS <= wait_after(n) <= wait_after(n + 1) <= RECONNECT_MAX_MS,
        n >= 7 ==> wait_after(n) == RECONNECT_MAX_MS,
    decreases n,
{
    if n > 0 {
        law_waits_grow_up_to_a_minute((n - 1) as nat);
    }
    if n == 7 {
        reveal_with_fuel(wait_after, 8);
    }
}

/// The topics of some symbols are the symbols in lower case, each with the suffix behind it,
/// in order; the address of a connection is the base and the topics with strokes between.
pub proof fn law_topics_name_their_symbols(symbols: Seq<Seq<char>>, suffix: Seq<char>, i: int)
    requires
        0 <= i < symbols.len(),
    ensures
        topics_of(symbols, suffix).len() == symbols.len(),
        topics_of(symbols, suffix)[i] == lowercase(symbols[i]) + suffix,
        combined_url(seq![symbols[i]]) == COMBINED_BASE@ + symbols[i],
{
}

/// The waits double: half a second at first, twice as long after each failure, and a minute
/// at most.
pub proof fn law_waits_double(n: nat)
    ensures
        wait_after(0) == 500,
        2 * wait_after(n) <= 60_000 ==> wait_after(n + 1) == 2 * wait_after(n),
        2 * wait_after(n) > 60_000 ==> wait_after(n + 1) == 60_000,
{
}

} // verus!
