//! The body of an HTTP response that was read to its end.

use crate::text::{chars_of, trim, trim_range};
use vstd::prelude::*;
use vstd::slice::slice_subrange;
use vstd::utf8::{decode_utf8, valid_utf8};

verus! {

/// What is wrong with a response.
#[derive(Debug, Clone, Copy, PartialEq, Eq, Structural)]
pub enum HttpError {
    /// No blank line ends the header.
    NoTerminator,
    /// The status line, which ends before byte `end`, does not say 200.
    NotOk {
        /// The length of the status line.
        end: usize,
    },
    /// A chunk has no size line.
    MissingSizeLine,
    /// A chunk's size is no hexadecimal number.
    BadChunkSize,
    /// A chunk is shorter than its size.
    TruncatedChunk,
}

/// Whether `pat` stands at place `i`.
pub open spec fn stands_at(b: Seq<u8>, pat: Seq<u8>, i: int) -> bool {
    i + pat.len() <= b.len() && b.subrange(i, i + pat.len()) == pat
}

/// The first place from `from` on where `pat` stands.
pub open spec fn find_from(b: Seq<u8>, pat: Seq<u8>, from: int) -> Option<int>
    decreases b.len() - from + 1,
{
    if from < 0 || from > b.len() {
        None
    } else if stands_at(b, pat, from) {
        Some(from)
    } else {
        find_from(b, pat, from + 1)
    }
}

/// Carriage return and line feed.
pub open spec fn crlf() -> Seq<u8> {
    seq![13u8, 10u8]
}

/// The blank line that ends a header.
pub open spec fn blank_line() -> Seq<u8> {
    seq![13u8, 10u8, 13u8, 10u8]
}

/// ` 200 `, the status of a response that has what was asked for.
pub open spec fn ok_status() -> Seq<u8> {
    seq![32u8, 50u8, 48u8, 48u8, 32u8]
}

/// `transfer-encoding:`.
pub open spec fn transfer_encoding() -> Seq<u8> {
    seq![
        116u8, 114u8, 97u8, 110u8, 115u8, 102u8, 101u8, 114u8, 45u8, 101u8, 110u8, 99u8, 111u8,
        100u8, 105u8, 110u8, 103u8, 58u8,
    ]
}

/// `chunked`.
pub open spec fn chunked_word() -> Seq<u8> {
    seq![99u8, 104u8, 117u8, 110u8, 107u8, 101u8, 100u8]
}

/// A byte with an upper-case letter made lower-case.
pub open spec fn lower_byte(b: u8) -> u8 {
    if 65 <= b <= 90 {
        (b + 32) as u8
    } else {
        b
    }
}

/// A line with its upper-case letters made lower-case.
pub open spec fn lower(s: Seq<u8>) -> Seq<u8> {
    s.map_values(|b: u8| lower_byte(b))
}

/// The end of the line that begins at `from`.
pub open spec fn line_end(h: Seq<u8>, from: int) -> int {
    match find_from(h, crlf(), from) {
        Some(e) => e,
        None => h.len() as int,
    }
}

/// Whether a header line announces chunks.
pub open spec fn announces_chunks(line: Seq<u8>) -> bool {
    stands_at(lower(line), transfer_encoding(), 0) && find_from(lower(line), chunked_word(), 0) is Some
}

/// Whether a line of the header from `from` on announces chunks.
pub open spec fn chunked_from(h: Seq<u8>, from: int) -> bool
    decreases h.len() - from + 1,
{
    if from < 0 || from > h.len() {
        false
    } else {
        let e = line_end(h, from);
        announces_chunks(h.subrange(from, e)) || (from <= e && e < h.len() && chunked_from(h, e + 2))
    }
}

/// The value of a hexadecimal digit.
pub open spec fn hex_digit(c: char) -> Option<nat> {
    if '0' <= c <= '9' {
        Some((c as nat - '0' as nat) as nat)
    } else if 'a' <= c <= 'f' {
        Some((c as nat - 'a' as nat + 10) as nat)
    } else if 'A' <= c <= 'F' {
        Some((c as nat - 'A' as nat + 10) as nat)
    } else {
        None
    }
}

/// The number that a run of hexadecimal digits denotes.
pub open spec fn hex_value(s: Seq<char>) -> Option<nat>
    decreases s.len(),
{
    if s.len() == 0 {
        Some(0)
    } else {
        match (hex_value(s.drop_last()), hex_digit(s.last())) {
            (Some(n), Some(d)) => Some(n * 16 + d),
            _ => None,
        }
    }
}

/// The number that a text denotes in hexadecimal, after an optional plus sign.
pub open spec fn hex_number(s: Seq<char>) -> Option<nat> {
    let t = if s.len() > 0 && s[0] == '+' { s.skip(1) } else { s };
    if t.len() == 0 {
        None
    } else {
        match hex_value(t) {
            Some(n) => if n <= usize::MAX {
                Some(n)
            } else {
                None
            },
            None => None,
        }
    }
}

/// The place of the first semicolon from `from` on, or the end.
pub open spec fn semicolon_from(s: Seq<char>, from: int) -> int
    decreases s.len() - from,
{
    if from >= s.len() {
        s.len() as int
    } else if s[from] == ';' {
        from
    } else {
        semicolon_from(s, from + 1)
    }
}

/// The size that a chunk's size line gives.
pub open spec fn chunk_size(line: Seq<u8>) -> Option<nat> {
    if valid_utf8(line) {
        let chars = decode_utf8(line);
        hex_number(trim(chars.take(semicolon_from(chars, 0))))
    } else {
        None
    }
}

/// The contents of a chunked body.
pub open spec fn dechunked(body: Seq<u8>) -> Result<Seq<u8>, HttpError>
    decreases body.len(),
{
    match find_from(body, crlf(), 0) {
        None => Err(HttpError::MissingSizeLine),
        Some(nl) => match chunk_size(body.take(nl)) {
            None => Err(HttpError::BadChunkSize),
            Some(size) => {
                let rest = body.skip(nl + 2);
                if size == 0 {
                    Ok(Seq::empty())
                } else if !(0 <= nl && nl + 2 + size + 2 <= body.len()) {
                    Err(HttpError::TruncatedChunk)
                } else {
                    match dechunked(rest.skip(size as int + 2)) {
                        Err(e) => Err(e),
                        Ok(tail) => Ok(rest.take(size as int) + tail),
                    }
                }
            },
        },
    }
}

/// The body of a response.
pub open spec fn response_body(raw: Seq<u8>) -> Result<Seq<u8>, HttpError> {
    match find_from(raw, blank_line(), 0) {
        None => Err(HttpError::NoTerminator),
        Some(split) => {
            let header = raw.take(split);
            let body = raw.skip(split + 4);
            let e = line_end(header, 0);
            if find_from(header.take(e), ok_status(), 0) is None {
                Err(HttpError::NotOk { end: e as usize })
            } else if e < header.len() && chunked_from(header, e + 2) {
                dechunked(body)
            } else {
                Ok(body)
            }
        },
    }
}

/// `std::str::from_utf8`: the text of some bytes, if they are UTF-8.
#[verifier::external_body]
fn utf8(bytes: &[u8]) -> (r: Option<&str>)
    ensures
        r is Some == valid_utf8(bytes@),
        r matches Some(s) ==> s@ == decode_utf8(bytes@),
{
    std::str::from_utf8(bytes).ok()
}

/// What `find_from` finds stands where it says, and nothing stands before it.
proof fn lemma_find(b: Seq<u8>, pat: Seq<u8>, from: int)
    requires
        0 <= from,
    ensures
        match find_from(b, pat, from) {
            Some(i) => from <= i && i + pat.len() <= b.len() && stands_at(b, pat, i),
            None => true,
        },
    decreases b.len() - from + 1,
{
    if from <= b.len() && !stands_at(b, pat, from) {
        lemma_find(b, pat, from + 1);
    }
}

/// Whether `pat` stands at place `i`, upper-case letters of `b` taken as lower-case
/// where `fold` says so.
fn stands(b: &[u8], pat: &Vec<u8>, i: usize, fold: bool) -> (r: bool)
    requires
        i <= b@.len(),
    ensures
        r == stands_at(if fold { lower(b@) } else { b@ }, pat@, i as int),
{
    let ghost s = if fold {
        lower(b@)
    } else {
        b@
    };
    let n: usize = b.len();
    if pat.len() > n - i {
        return false;
    }
    let mut k: usize = 0;
    while k < pat.len()
        invariant
            i + pat@.len() <= n,
            n == b@.len(),
            k <= pat@.len(),
            s == (if fold { lower(b@) } else { b@ }),
            forall|j: int| 0 <= j < k ==> s[i + j] == #[trigger] pat@[j],
        decreases pat@.len() - k,
    {
        let mut c: u8 = b[i + k];
        if fold && 65 <= c && c <= 90 {
            c = c + 32;
        }
        assert(c == s[i + k]);
        if c != pat[k] {
            assert(s.subrange(i as int, i + pat@.len())[k as int] != pat@[k as int]);
            return false;
        }
        k += 1;
    }
    assert(s.subrange(i as int, i + pat@.len()) =~= pat@);
    true
}

/// The first place from `from` on where `pat` stands.
fn find(b: &[u8], pat: &Vec<u8>, from: usize, fold: bool) -> (r: Option<usize>)
    requires
        from <= b@.len(),
    ensures
        match r {
            Some(i) => find_from(if fold { lower(b@) } else { b@ }, pat@, from as int) == Some(
                i as int,
            ) && from <= i && i + pat@.len() <= b@.len(),
            None => find_from(if fold { lower(b@) } else { b@ }, pat@, from as int) is None,
        },
{
    let ghost s = if fold {
        lower(b@)
    } else {
        b@
    };
    proof {
        lemma_find(s, pat@, from as int);
    }
    let mut i: usize = from;
    loop
        invariant
            from <= i <= b@.len(),
            s == (if fold { lower(b@) } else { b@ }),
            s.len() == b@.len(),
            find_from(s, pat@, i as int) == find_from(s, pat@, from as int),
        decreases b@.len() - i,
    {
        if stands(b, pat, i, fold) {
            return Some(i);
        }
        if i == b.len() {
            assert(find_from(s, pat@, i + 1) is None);
            return None;
        }
        i += 1;
    }
}

/// Carriage return and line feed.
fn crlf_bytes() -> (v: Vec<u8>)
    ensures
        v@ == crlf(),
{
    vec![13, 10]
}

/// The end of the line that begins at `from`.
fn find_line_end(h: &[u8], from: usize) -> (e: usize)
    requires
        from <= h@.len(),
    ensures
        e == line_end(h@, from as int),
        from <= e <= h@.len(),
        e < h@.len() ==> e + 2 <= h@.len(),
{
    let pat = crlf_bytes();
    match find(h, &pat, from, false) {
        Some(e) => e,
        None => h.len(),
    }
}

/// Whether a header line announces chunks.
fn line_announces_chunks(line: &[u8]) -> (r: bool)
    ensures
        r == announces_chunks(line@),
{
    let field: Vec<u8> = vec![
        116, 114, 97, 110, 115, 102, 101, 114, 45, 101, 110, 99, 111, 100, 105, 110, 103, 58,
    ];
    let word: Vec<u8> = vec![99, 104, 117, 110, 107, 101, 100];
    assert(field@ =~= transfer_encoding());
    assert(word@ =~= chunked_word());
    stands(line, &field, 0, true) && find(line, &word, 0, true).is_some()
}

/// Whether a line of the header from `from` on announces chunks.
fn header_announces_chunks(h: &[u8], from: usize) -> (r: bool)
    requires
        from <= h@.len(),
    ensures
        r == chunked_from(h@, from as int),
{
    let mut at: usize = from;
    loop
        invariant
            at <= h@.len(),
            chunked_from(h@, at as int) == chunked_from(h@, from as int),
        decreases h@.len() - at,
    {
        let e: usize = find_line_end(h, at);
        if line_announces_chunks(slice_subrange(h, at, e)) {
            return true;
        }
        if e >= h.len() {
            return false;
        }
        at = e + 2;
    }
}

/// The value of a hexadecimal digit.
fn read_hex_digit(c: char) -> (r: Option<u64>)
    ensures
        match r {
            Some(d) => hex_digit(c) == Some(d as nat) && d < 16,
            None => hex_digit(c) is None,
        },
{
    if '0' <= c && c <= '9' {
        Some(c as u64 - '0' as u64)
    } else if 'a' <= c && c <= 'f' {
        Some(c as u64 - 'a' as u64 + 10)
    } else if 'A' <= c && c <= 'F' {
        Some(c as u64 - 'A' as u64 + 10)
    } else {
        None
    }
}

/// A prefix that is no number, or too large a one, stays so.
proof fn lemma_hex_prefix(s: Seq<char>, k: int)
    requires
        0 <= k <= s.len(),
    ensures
        hex_value(s.take(k)) is None ==> hex_value(s) is None,
        hex_value(s) matches Some(n) ==> hex_value(s.take(k)) is Some && hex_value(s.take(k))->0 <= n,
    decreases s.len() - k,
{
    if k < s.len() {
        lemma_hex_prefix(s, k + 1);
        assert(s.take(k + 1).drop_last() =~= s.take(k));
    } else {
        assert(s.take(k) =~= s);
    }
}

/// The number that `s[lo..hi]` denotes in hexadecimal.
fn read_hex(s: &[char], lo: usize, hi: usize) -> (r: Option<usize>)
    requires
        lo <= hi <= s@.len(),
    ensures
        match r {
            Some(n) => hex_number(s@.subrange(lo as int, hi as int)) == Some(n as nat),
            None => hex_number(s@.subrange(lo as int, hi as int)) is None,
        },
{
    let ghost all = s@.subrange(lo as int, hi as int);
    let start: usize = if lo < hi && s[lo] == '+' {
        lo + 1
    } else {
        lo
    };
    let ghost t = s@.subrange(start as int, hi as int);
    assert(t =~= if all.len() > 0 && all[0] == '+' { all.skip(1) } else { all });
    if start == hi {
        return None;
    }
    let mut n: usize = 0;
    let mut i: usize = start;
    while i < hi
        invariant
            lo <= start <= i <= hi <= s@.len(),
            t == s@.subrange(start as int, hi as int),
            hex_value(t.take(i - start)) == Some(n as nat),
            t == (if all.len() > 0 && all[0] == '+' { all.skip(1) } else { all }),
            all == s@.subrange(lo as int, hi as int),
        decreases hi - i,
    {
        let ghost k = i - start;
        proof {
            assert(t.take(k + 1).drop_last() =~= t.take(k));
            assert(t.take(k + 1).last() == s@[i as int]);
            lemma_hex_prefix(t, k + 1);
        }
        let d: usize = match read_hex_digit(s[i]) {
            Some(d) => d as usize,
            None => return None,
        };
        if n > usize::MAX / 16 {
            assert(n * 16 + d > usize::MAX);
            return None;
        }
        n = n * 16 + d;
        i += 1;
    }
    assert(t.take(i - start) =~= t);
    Some(n)
}

/// The size that a chunk's size line gives.
fn read_chunk_size(line: &[u8]) -> (r: Option<usize>)
    ensures
        match r {
            Some(n) => chunk_size(line@) == Some(n as nat),
            None => chunk_size(line@) is None,
        },
{
    let text = match utf8(line) {
        Some(t) => t,
        None => return None,
    };
    let chars = chars_of(text);
    let mut end: usize = 0;
    while end < chars.len() && chars[end] != ';'
        invariant
            end <= chars@.len(),
            semicolon_from(chars@, end as int) == semicolon_from(chars@, 0),
        decreases chars@.len() - end,
    {
        end += 1;
    }
    let (a, b) = trim_range(chars.as_slice(), 0, end);
    assert(chars@.subrange(0, end as int) =~= chars@.take(end as int));
    read_hex(chars.as_slice(), a, b)
}

/// Appends `b[lo..hi]`.
fn append_range(out: &mut Vec<u8>, b: &[u8], lo: usize, hi: usize)
    requires
        lo <= hi <= b@.len(),
    ensures
        final(out)@ == old(out)@ + b@.subrange(lo as int, hi as int),
{
    let mut i: usize = lo;
    assert(b@.subrange(lo as int, lo as int) =~= Seq::empty());
    while i < hi
        invariant
            lo <= i <= hi <= b@.len(),
            out@ == old(out)@ + b@.subrange(lo as int, i as int),
        decreases hi - i,
    {
        out.push(b[i]);
        i += 1;
        assert(out@ =~= old(out)@ + b@.subrange(lo as int, i as int));
    }
}

/// The contents of a chunked body.
pub fn dechunk(body: &[u8]) -> (r: Result<Vec<u8>, HttpError>)
    ensures
        match r {
            Ok(v) => dechunked(body@) == Ok::<Seq<u8>, HttpError>(v@),
            Err(e) => dechunked(body@) == Err::<Seq<u8>, HttpError>(e),
        },
{
    let pat = crlf_bytes();
    let mut out: Vec<u8> = Vec::new();
    let mut at: usize = 0;
    assert(body@.skip(0) =~= body@);
    loop
        invariant
            at <= body@.len(),
            pat@ == crlf(),
            match dechunked(body@.skip(at as int)) {
                Ok(tail) => dechunked(body@) == Ok::<Seq<u8>, HttpError>(out@ + tail),
                Err(e) => dechunked(body@) == Err::<Seq<u8>, HttpError>(e),
            },
        decreases body@.len() - at,
    {
        let b = slice_subrange(body, at, body.len());
        assert(b@ =~= body@.skip(at as int));
        let nl: usize = match find(b, &pat, 0, false) {
            Some(nl) => nl,
            None => return Err(HttpError::MissingSizeLine),
        };
        let line = slice_subrange(b, 0, nl);
        assert(line@ =~= b@.take(nl as int));
        let size: usize = match read_chunk_size(line) {
            Some(size) => size,
            None => return Err(HttpError::BadChunkSize),
        };
        if size == 0 {
            assert(out@ + Seq::<u8>::empty() =~= out@);
            return Ok(out);
        }
        let left: usize = b.len() - (nl + 2);
        if left < 2 || left - 2 < size {
            return Err(HttpError::TruncatedChunk);
        }
        let lo: usize = at + nl + 2;
        let ghost before = out@;
        append_range(&mut out, body, lo, lo + size);
        proof {
            let rest = b@.skip(nl + 2);
            assert(body@.subrange(lo as int, lo + size) =~= rest.take(size as int));
            assert(rest.skip(size + 2) =~= body@.skip(lo + size + 2));
            if let Ok(tail) = dechunked(rest.skip(size + 2)) {
                assert(before + (rest.take(size as int) + tail) =~= out@ + tail);
            }
        }
        at = lo + size + 2;
    }
}

/// The body of a response.
pub fn parse_http_body(raw: &[u8]) -> (r: Result<Vec<u8>, HttpError>)
    ensures
        match r {
            Ok(v) => response_body(raw@) == Ok::<Seq<u8>, HttpError>(v@),
            Err(e) => response_body(raw@) == Err::<Seq<u8>, HttpError>(e),
        },
{
    let blank: Vec<u8> = vec![13, 10, 13, 10];
    assert(blank@ =~= blank_line());
    let n: usize = raw.len();
    let split: usize = match find(raw, &blank, 0, false) {
        Some(split) => split,
        None => return Err(HttpError::NoTerminator),
    };
    let header = slice_subrange(raw, 0, split);
    let body = slice_subrange(raw, split + 4, n);
    assert(header@ =~= raw@.take(split as int));
    assert(body@ =~= raw@.skip(split + 4));
    let e: usize = find_line_end(header, 0);
    let status: Vec<u8> = vec![32, 50, 48, 48, 32];
    assert(status@ =~= ok_status());
    let first = slice_subrange(header, 0, e);
    assert(first@ =~= header@.take(e as int));
    if find(first, &status, 0, false).is_none() {
        return Err(HttpError::NotOk { end: e });
    }
    if e < header.len() && header_announces_chunks(header, e + 2) {
        dechunk(body)
    } else {
        let mut out: Vec<u8> = Vec::new();
        append_range(&mut out, body, 0, body.len());
        assert(out@ =~= body@);
        Ok(out)
    }
}

proof fn lemma_first_place(b: Seq<u8>, pat: Seq<u8>, from: int, i: int)
    requires
        0 <= from <= i,
        stands_at(b, pat, i),
        forall|j: int| from <= j < i ==> !#[trigger] stands_at(b, pat, j),
    ensures
        find_from(b, pat, from) == Some(i),
    decreases i - from,
{
    if from < i {
        assert(!stands_at(b, pat, from));
        lemma_first_place(b, pat, from + 1, i);
    }
}

proof fn lemma_nowhere(b: Seq<u8>, pat: Seq<u8>, from: int)
    requires
        0 <= from,
        forall|j: int| from <= j ==> !#[trigger] stands_at(b, pat, j),
    ensures
        find_from(b, pat, from) is None,
    decreases b.len() - from + 1,
{
    if from <= b.len() {
        assert(!stands_at(b, pat, from));
        lemma_nowhere(b, pat, from + 1);
    }
}

/// Whether bytes hold no line end: no carriage return that a line feed follows.
pub open spec fn is_one_line(b: Seq<u8>) -> bool {
    &&& forall|i: int| 0 <= i < b.len() - 1 ==> !(#[trigger] b[i] == 13 && b[i + 1] == 10)
    &&& b.len() > 0 ==> b.last() != 13
}

proof fn lemma_line_ends(line: Seq<u8>, rest: Seq<u8>)
    requires
        is_one_line(line),
    ensures
        find_from(line + seq![13u8, 10u8] + rest, crlf(), 0) == Some(line.len() as int),
{
    let b = line + seq![13u8, 10u8] + rest;
    let n = line.len() as int;
    assert(b.subrange(n, n + 2) =~= crlf());
    assert forall|j: int| 0 <= j < n implies !#[trigger] stands_at(b, crlf(), j) by {
        if stands_at(b, crlf(), j) {
            let s = b.subrange(j, j + 2);
            assert(s[0] == 13u8);
            assert(s[1] == 10u8);
            assert(b[j] == 13 && b[j + 1] == 10);
            if j < n - 1 {
                assert(line[j] == 13 && line[j + 1] == 10);
            } else {
                assert(line.last() == line[j]);
            }
        }
    }
    lemma_first_place(b, crlf(), 0, n);
}

/// The contents of a chunked body are the data of its chunks, one after the other: a size
/// line, as many bytes as it says and a line end add those bytes to what the rest holds. A
/// chunk of size zero is the last. A size line that gives no size, and bytes that end before
/// the chunk does, are refused.
pub proof fn law_chunks_are_put_together(line: Seq<u8>, data: Seq<u8>, rest: Seq<u8>, short: Seq<u8>)
    requires
        is_one_line(line),
    ensures
        data.len() > 0 && chunk_size(line) == Some(data.len()) ==> ({
            let body = line + seq![13u8, 10u8] + data + seq![13u8, 10u8] + rest;
            match dechunked(rest) {
                Ok(tail) => dechunked(body) == Ok::<Seq<u8>, HttpError>(data + tail),
                Err(e) => dechunked(body) == Err::<Seq<u8>, HttpError>(e),
            }
        }),
        chunk_size(line) == Some(0nat) ==> dechunked(line + seq![13u8, 10u8] + rest) == Ok::<
            Seq<u8>,
            HttpError,
        >(Seq::empty()),
        chunk_size(line) is None ==> dechunked(line + seq![13u8, 10u8] + rest) == Err::<
            Seq<u8>,
            HttpError,
        >(HttpError::BadChunkSize),
        chunk_size(line) matches Some(n) && n > 0 && short.len() < n + 2 ==> dechunked(
            line + seq![13u8, 10u8] + short,
        ) == Err::<Seq<u8>, HttpError>(HttpError::TruncatedChunk),
{
    let n = line.len() as int;
    lemma_line_ends(line, rest);
    lemma_line_ends(line, short);
    let b = line + seq![13u8, 10u8] + rest;
    assert(b.take(n) =~= line);
    let c = line + seq![13u8, 10u8] + short;
    assert(c.take(n) =~= line);
    let tail = data + seq![13u8, 10u8] + rest;
    let body = line + seq![13u8, 10u8] + data + seq![13u8, 10u8] + rest;
    assert(body =~= line + seq![13u8, 10u8] + tail);
    lemma_line_ends(line, tail);
    assert(body.take(n) =~= line);
    assert(body.skip(n + 2) =~= tail);
    assert(tail.take(data.len() as int) =~= data);
    assert(tail.skip(data.len() as int + 2) =~= rest);
}

/// The size on a size line is what stands before a semicolon, read as a hexadecimal number:
/// one more digit makes it sixteen times as large and adds the digit, of either case.
pub proof fn law_hexadecimal_is_positional(s: Seq<char>, n: nat, c: char)
    requires
        hex_value(s) == Some(n),
    ensures
        '0' <= c <= '9' ==> hex_value(s.push(c)) == Some(
            (16 * n + (c as nat - '0' as nat)) as nat,
        ),
        'a' <= c <= 'f' ==> hex_value(s.push(c)) == Some(
            (16 * n + 10 + (c as nat - 'a' as nat)) as nat,
        ),
        'A' <= c <= 'F' ==> hex_value(s.push(c)) == Some(
            (16 * n + 10 + (c as nat - 'A' as nat)) as nat,
        ),
        hex_value(Seq::empty()) == Some(0nat),
        s.len() > 0 && s[0] != '+' && n <= usize::MAX ==> hex_number(s) == Some(n),
{
    assert(s.push(c).drop_last() =~= s);
}

/// The body of a response with one header line is what follows the blank line, where the
/// line says 200; a response without a blank line, and one that says something else, are
/// refused.
pub proof fn law_body_follows_the_blank_line(line: Seq<u8>, body: Seq<u8>, at: int, raw: Seq<u8>)
    requires
        is_one_line(line),
    ensures
        ({
            let whole = line + seq![13u8, 10u8, 13u8, 10u8] + body;
            let ok = seq![32u8, 50u8, 48u8, 48u8, 32u8];
            &&& 0 <= at && at + 5 <= line.len() && line.subrange(at, at + 5) == ok
                ==> response_body(whole) == Ok::<Seq<u8>, HttpError>(body)
            &&& (forall|i: int| 0 <= i && i + 5 <= line.len() ==> #[trigger] line.subrange(i, i + 5)
                != ok) ==> response_body(whole) is Err
        }),
        (forall|i: int|
            0 <= i && i + 4 <= raw.len() ==> #[trigger] raw.subrange(i, i + 4) != seq![
                13u8,
                10u8,
                13u8,
                10u8,
            ]) ==> response_body(raw) == Err::<Seq<u8>, HttpError>(HttpError::NoTerminator),
{
    let n = line.len() as int;
    let whole = line + seq![13u8, 10u8, 13u8, 10u8] + body;
    assert(blank_line() =~= seq![13u8, 10u8, 13u8, 10u8]);
    assert(ok_status() =~= seq![32u8, 50u8, 48u8, 48u8, 32u8]);
    assert(whole.subrange(n, n + 4) =~= blank_line());
    assert forall|j: int| 0 <= j < n implies !#[trigger] stands_at(whole, blank_line(), j) by {
        if stands_at(whole, blank_line(), j) {
            let s = whole.subrange(j, j + 4);
            assert(s[0] == 13u8);
            assert(s[1] == 10u8);
            assert(whole[j] == 13 && whole[j + 1] == 10);
            if j < n - 1 {
                assert(line[j] == 13 && line[j + 1] == 10);
            } else {
                assert(line.last() == line[j]);
            }
        }
    }
    lemma_first_place(whole, blank_line(), 0, n);
    assert(whole.take(n) =~= line);
    assert(whole.skip(n + 4) =~= body);
    assert forall|j: int| 0 <= j implies !#[trigger] stands_at(line, crlf(), j) by {
        if stands_at(line, crlf(), j) {
            let s = line.subrange(j, j + 2);
            assert(s[0] == 13u8);
            assert(s[1] == 10u8);
            assert(line[j] == 13 && line[j + 1] == 10);
        }
    }
    lemma_nowhere(line, crlf(), 0);
    assert(line.take(n) =~= line);
    if 0 <= at && at + 5 <= line.len() && line.subrange(at, at + 5) == ok_status() {
        lemma_found(line, ok_status(), 0, at);
    }
    if forall|i: int| 0 <= i && i + 5 <= line.len() ==> #[trigger] line.subrange(i, i + 5)
        != ok_status() {
        assert forall|j: int| 0 <= j implies !#[trigger] stands_at(line, ok_status(), j) by {}
        lemma_nowhere(line, ok_status(), 0);
    }
    if forall|i: int| 0 <= i && i + 4 <= raw.len() ==> #[trigger] raw.subrange(i, i + 4)
        != blank_line() {
        assert forall|j: int| 0 <= j implies !#[trigger] stands_at(raw, blank_line(), j) by {}
        lemma_nowhere(raw, blank_line(), 0);
    }
}

proof fn lemma_found(b: Seq<u8>, pat: Seq<u8>, from: int, at: int)
    requires
        0 <= from <= at,
        stands_at(b, pat, at),
    ensures
        find_from(b, pat, from) is Some,
    decreases at - from,
{
    if from < at && !stands_at(b, pat, from) {
        lemma_found(b, pat, from + 1, at);
    }
}

/// A response whose second header line announces chunks, in letters of either case, has the
/// contents of its chunks as its body.
pub proof fn law_announced_chunks_are_put_together(
    line: Seq<u8>,
    second: Seq<u8>,
    body: Seq<u8>,
    at: int,
    word: int,
)
    requires
        is_one_line(line),
        is_one_line(second),
        second.len() >= 18,
        0 <= at && at + 5 <= line.len(),
        line.subrange(at, at + 5) == seq![32u8, 50u8, 48u8, 48u8, 32u8],
        lower(second).take(18) == transfer_encoding(),
        0 <= word && word + 7 <= second.len(),
        lower(second).subrange(word, word + 7) == seq![99u8, 104u8, 117u8, 110u8, 107u8, 101u8, 100u8],
    ensures
        response_body(
            line + seq![13u8, 10u8] + second + seq![13u8, 10u8, 13u8, 10u8] + body,
        ) == dechunked(body),
{
    let raw = line + seq![13u8, 10u8] + second + seq![13u8, 10u8, 13u8, 10u8] + body;
    let header = line + seq![13u8, 10u8] + second;
    let n = line.len() as int;
    let m = header.len() as int;
    assert(raw =~= header + seq![13u8, 10u8, 13u8, 10u8] + body);
    assert(raw.take(m) =~= header);
    assert(raw.skip(m + 4) =~= body);
    lemma_blank_after_two_lines(line, second, body);
    lemma_line_ends(line, second);
    assert(header.take(n) =~= line);
    assert(ok_status() =~= seq![32u8, 50u8, 48u8, 48u8, 32u8]);
    lemma_found(line, ok_status(), 0, at);
    lemma_second_line_is_last(line, second);
    assert(header.subrange(n + 2, m) =~= second);
    assert(lower(second).subrange(0, 18) =~= lower(second).take(18));
    assert(transfer_encoding().len() == 18);
    assert(stands_at(lower(second), transfer_encoding(), 0));
    assert(chunked_word() =~= seq![99u8, 104u8, 117u8, 110u8, 107u8, 101u8, 100u8]);
    assert(stands_at(lower(second), chunked_word(), word));
    lemma_found(lower(second), chunked_word(), 0, word);
    assert(announces_chunks(second));
    assert(line_end(header, n + 2) == m);
    assert(chunked_from(header, n + 2));
}

proof fn lemma_second_line_is_last(line: Seq<u8>, second: Seq<u8>)
    requires
        is_one_line(second),
    ensures
        find_from(line + seq![13u8, 10u8] + second, crlf(), line.len() as int + 2) is None,
{
    let n = line.len() as int;
    let header = line + seq![13u8, 10u8] + second;
    assert forall|j: int| n + 2 <= j implies !#[trigger] stands_at(header, crlf(), j) by {
        if stands_at(header, crlf(), j) {
            let s = header.subrange(j, j + 2);
            assert(s[0] == 13u8);
            assert(s[1] == 10u8);
            assert(second[j - n - 2] == 13 && second[j - n - 1] == 10);
        }
    }
    lemma_nowhere(header, crlf(), n + 2);
}

#[verifier::spinoff_prover]
proof fn lemma_blank_after_two_lines(line: Seq<u8>, second: Seq<u8>, body: Seq<u8>)
    requires
        is_one_line(line),
        is_one_line(second),
        second.len() >= 2,
    ensures
        find_from(
            line + seq![13u8, 10u8] + second + seq![13u8, 10u8, 13u8, 10u8] + body,
            blank_line(),
            0,
        ) == Some((line.len() + 2 + second.len()) as int),
{
    let raw = line + seq![13u8, 10u8] + second + seq![13u8, 10u8, 13u8, 10u8] + body;
    let n = line.len() as int;
    let m = n + 2 + second.len() as int;
    assert(raw.subrange(m, m + 4) =~= blank_line());
    assert forall|j: int| 0 <= j < m implies !#[trigger] stands_at(raw, blank_line(), j) by {
        if stands_at(raw, blank_line(), j) {
            let s = raw.subrange(j, j + 4);
            assert(s[0] == 13u8 && s[1] == 10u8 && s[2] == 13u8 && s[3] == 10u8);
            assert(raw[j] == 13 && raw[j + 1] == 10 && raw[j + 2] == 13 && raw[j + 3] == 10);
            lemma_no_blank_before(line, second, body, j);
        }
    }
    lemma_first_place(raw, blank_line(), 0, m);
}

#[verifier::spinoff_prover]
proof fn lemma_no_blank_before(line: Seq<u8>, second: Seq<u8>, body: Seq<u8>, j: int)
    requires
        is_one_line(line),
        is_one_line(second),
        second.len() >= 2,
        0 <= j < line.len() + 2 + second.len(),
    ensures
        ({
            let raw = line + seq![13u8, 10u8] + second + seq![13u8, 10u8, 13u8, 10u8] + body;
            !(raw[j] == 13 && raw[j + 1] == 10 && raw[j + 2] == 13 && raw[j + 3] == 10)
        }),
{
    let raw = line + seq![13u8, 10u8] + second + seq![13u8, 10u8, 13u8, 10u8] + body;
    let n = line.len() as int;
    let m = n + 2 + second.len() as int;
    if j < n - 1 {
        assert(raw[j] == line[j]);
        assert(raw[j + 1] == line[j + 1]);
    } else if j == n - 1 {
        assert(raw[j] == line[j]);
        assert(line.last() == line[j]);
    } else if j == n {
        assert(raw[j + 2] == second[0]);
        assert(raw[j + 3] == second[1]);
    } else if j == n + 1 {
        assert(raw[j] == 10u8);
    } else if j < m - 1 {
        assert(raw[j] == second[j - n - 2]);
        assert(raw[j + 1] == second[j - n - 1]);
    } else {
        assert(raw[j] == second[j - n - 2]);
        assert(second.last() == second[j - n - 2]);
    }
}

} // verus!
