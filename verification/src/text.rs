//! Text: decimal numbers and the building of strings from parts.

use vstd::prelude::*;
use vstd::string::StringSliceAdditionalSpecFns;

verus! {

/// The decimal digit of `d`.
pub open spec fn digit(d: int) -> char {
    (('0' as int) + d) as char
}

/// The decimal representation of `n`, without leading zeros.
pub open spec fn decimal(n: nat) -> Seq<char>
    decreases n,
{
    if n < 10 {
        seq![digit(n as int)]
    } else {
        decimal(n / 10).push(digit((n % 10) as int))
    }
}

/// The decimal representation of a signed number.
pub open spec fn signed_decimal(n: int) -> Seq<char> {
    if n < 0 {
        seq!['-'] + decimal((-n) as nat)
    } else {
        decimal(n as nat)
    }
}

/// The text of one decimal digit.
fn digit_str(d: u64) -> (s: &'static str)
    requires
        d < 10,
    ensures
        s@ == seq![digit(d as int)],
{
    proof {
        reveal_strlit("0");
        reveal_strlit("1");
        reveal_strlit("2");
        reveal_strlit("3");
        reveal_strlit("4");
        reveal_strlit("5");
        reveal_strlit("6");
        reveal_strlit("7");
        reveal_strlit("8");
        reveal_strlit("9");
    }
    let s = match d {
        0 => "0",
        1 => "1",
        2 => "2",
        3 => "3",
        4 => "4",
        5 => "5",
        6 => "6",
        7 => "7",
        8 => "8",
        _ => "9",
    };
    assert(s@ =~= seq![digit(d as int)]);
    s
}

/// Appends the decimal representation of `n`.
pub fn push_decimal(s: &mut String, n: u64)
    ensures
        final(s)@ == old(s)@ + decimal(n as nat),
    decreases n,
{
    if n >= 10 {
        push_decimal(s, n / 10);
    }
    let ghost before = s@;
    s.append(digit_str(n % 10));
    proof {
        if n < 10 {
            assert(s@ =~= before + decimal(n as nat));
        } else {
            assert(s@ =~= old(s)@ + decimal(n as nat));
        }
    }
}

/// Appends the decimal representation of a signed number.
pub fn push_signed_decimal(s: &mut String, n: i64)
    ensures
        final(s)@ == old(s)@ + signed_decimal(n as int),
{
    if n < 0 {
        proof {
            reveal_strlit("-");
        }
        s.append("-");
        let ghost mid = s@;
        let m: u64 = if n == i64::MIN {
            0x8000_0000_0000_0000u64
        } else {
            (-n) as u64
        };
        push_decimal(s, m);
        assert(s@ =~= old(s)@ + (seq!['-'] + decimal(m as nat)));
    } else {
        push_decimal(s, n as u64);
    }
}

/// Two lists of characters are equal exactly when they agree in length and place
/// by place.
pub fn same_text(a: &str, b: &str) -> (r: bool)
    ensures
        r == (a@ == b@),
{
    let n: usize = a.unicode_len();
    if n != b.unicode_len() {
        return false;
    }
    let mut i: usize = 0;
    while i < n
        invariant
            i <= n,
            n == a@.len() == b@.len(),
            forall|k: int| 0 <= k < i ==> a@[k] == b@[k],
        decreases n - i,
    {
        if a.get_char(i) != b.get_char(i) {
            return false;
        }
        i += 1;
    }
    assert(a@ =~= b@);
    true
}

/// `String::push`: appends one character.
pub assume_specification[ String::push ](s: &mut String, c: char)
    ensures
        final(s)@ == old(s)@.push(c),
;

/// The characters of a text.
pub fn chars_of(s: &str) -> (v: Vec<char>)
    ensures
        v@ == s@,
{
    let mut v: Vec<char> = Vec::new();
    for c in it: s.chars()
        invariant
            v@ == s@.take(it.index()),
            it.seq() == s@,
    {
        v.push(c);
        assert(s@.take(it.index() + 1) =~= s@.take(it.index()).push(c));
    }
    assert(s@.take(s@.len() as int) =~= s@);
    v
}

/// A text of the given characters.
pub fn text_of(chars: &[char]) -> (s: String)
    ensures
        s@ == chars@,
{
    let mut s = String::new();
    let mut i: usize = 0;
    while i < chars.len()
        invariant
            i <= chars@.len(),
            s@ == chars@.take(i as int),
        decreases chars@.len() - i,
    {
        s.push(chars[i]);
        i += 1;
        assert(chars@.take(i as int) =~= chars@.take(i - 1).push(chars@[i - 1]));
    }
    assert(chars@.take(i as int) =~= chars@);
    s
}

/// Whether a character is white space, as the Unicode property has it.
pub open spec fn is_space(c: char) -> bool {
    ||| '\u{9}' <= c <= '\u{d}'
    ||| c == ' '
    ||| c == '\u{85}'
    ||| c == '\u{a0}'
    ||| c == '\u{1680}'
    ||| '\u{2000}' <= c <= '\u{200a}'
    ||| c == '\u{2028}'
    ||| c == '\u{2029}'
    ||| c == '\u{202f}'
    ||| c == '\u{205f}'
    ||| c == '\u{3000}'
}

/// Whether a character is white space.
pub fn space(c: char) -> (b: bool)
    ensures
        b == is_space(c),
{
    ('\u{9}' <= c && c <= '\u{d}') || c == ' ' || c == '\u{85}' || c == '\u{a0}' || c == '\u{1680}'
        || ('\u{2000}' <= c && c <= '\u{200a}') || c == '\u{2028}' || c == '\u{2029}' || c
        == '\u{202f}' || c == '\u{205f}' || c == '\u{3000}'
}

/// A text without the white space before it.
pub open spec fn trim_start(s: Seq<char>) -> Seq<char>
    decreases s.len(),
{
    if s.len() > 0 && is_space(s[0]) {
        trim_start(s.skip(1))
    } else {
        s
    }
}

/// A text without the white space behind it.
pub open spec fn trim_end(s: Seq<char>) -> Seq<char>
    decreases s.len(),
{
    if s.len() > 0 && is_space(s.last()) {
        trim_end(s.drop_last())
    } else {
        s
    }
}

/// A text without the white space around it.
pub open spec fn trim(s: Seq<char>) -> Seq<char> {
    trim_end(trim_start(s))
}

/// The part of `s[lo..hi]` without the white space around it.
pub fn trim_range(s: &[char], lo: usize, hi: usize) -> (r: (usize, usize))
    requires
        lo <= hi <= s@.len(),
    ensures
        lo <= r.0 <= r.1 <= hi,
        s@.subrange(r.0 as int, r.1 as int) == trim(s@.subrange(lo as int, hi as int)),
{
    let mut a: usize = lo;
    while a < hi && space(s[a])
        invariant
            lo <= a <= hi <= s@.len(),
            trim_start(s@.subrange(a as int, hi as int)) == trim_start(
                s@.subrange(lo as int, hi as int),
            ),
        decreases hi - a,
    {
        assert(s@.subrange(a as int, hi as int).skip(1) =~= s@.subrange(a + 1, hi as int));
        a += 1;
    }
    let ghost left = s@.subrange(a as int, hi as int);
    assert(left == trim_start(s@.subrange(lo as int, hi as int)));
    let mut b: usize = hi;
    while b > a && space(s[b - 1])
        invariant
            lo <= a <= b <= hi <= s@.len(),
            trim_end(s@.subrange(a as int, b as int)) == trim_end(left),
        decreases b,
    {
        assert(s@.subrange(a as int, b as int).drop_last() =~= s@.subrange(a as int, b - 1));
        b -= 1;
    }
    (a, b)
}

/// Whether every character is a decimal digit.
pub open spec fn all_digits(s: Seq<char>) -> bool {
    forall|i: int| 0 <= i < s.len() ==> '0' <= #[trigger] s[i] <= '9'
}

/// The number that a run of decimal digits denotes.
pub open spec fn number(s: Seq<char>) -> nat
    decreases s.len(),
{
    if s.len() == 0 {
        0
    } else {
        number(s.drop_last()) * 10 + (s.last() as nat - '0' as nat) as nat
    }
}

/// The unsigned number that a text denotes: digits after an optional plus sign, no
/// larger than `max`.
pub open spec fn unsigned(s: Seq<char>, max: nat) -> Option<nat> {
    let t = if s.len() > 0 && s[0] == '+' { s.skip(1) } else { s };
    if t.len() > 0 && all_digits(t) && number(t) <= max {
        Some(number(t))
    } else {
        None
    }
}

/// A longer run of digits denotes a number that is no smaller.
proof fn lemma_number_grows(s: Seq<char>, k: int)
    requires
        all_digits(s),
        0 <= k <= s.len(),
    ensures
        number(s.take(k)) <= number(s),
    decreases s.len() - k,
{
    if k < s.len() {
        lemma_number_grows(s, k + 1);
        assert(s.take(k + 1).drop_last() =~= s.take(k));
        assert(s.take(k + 1).last() == s[k]);
    } else {
        assert(s.take(k) =~= s);
    }
}

/// The unsigned number that `s[lo..hi]` denotes.
pub fn parse_unsigned(s: &[char], lo: usize, hi: usize, max: u64) -> (r: Option<u64>)
    requires
        lo <= hi <= s@.len(),
    ensures
        match r {
            Some(n) => unsigned(s@.subrange(lo as int, hi as int), max as nat) == Some(n as nat),
            None => unsigned(s@.subrange(lo as int, hi as int), max as nat) is None,
        },
{
    let ghost all = s@.subrange(lo as int, hi as int);
    let start: usize = if lo < hi && s[lo] == '+' {
        lo + 1
    } else {
        lo
    };
    let ghost t = s@.subrange(start as int, hi as int);
    assert(t =~= if all.len() > 0 && all[0] == '+' { all.skip(1) } else { all });
    if start == hi {
        return None;
    }
    let mut n: u64 = 0;
    let mut i: usize = start;
    while i < hi
        invariant
            lo <= start <= i <= hi <= s@.len(),
            t == s@.subrange(start as int, hi as int),
            all_digits(t.take(i - start)),
            n == number(t.take(i - start)),
            n <= max,
            t == (if all.len() > 0 && all[0] == '+' { all.skip(1) } else { all }),
            all == s@.subrange(lo as int, hi as int),
        decreases hi - i,
    {
        let c = s[i];
        let ghost k = i - start;
        assert(t[k] == c);
        if !('0' <= c && c <= '9') {
            assert(!all_digits(t));
            return None;
        }
        let d: u64 = c as u64 - '0' as u64;
        proof {
            assert(t.take(k + 1).drop_last() =~= t.take(k));
            assert(t.take(k + 1).last() == c);
            assert forall|j: int| 0 <= j < k + 1 implies '0' <= #[trigger] t.take(k + 1)[j] <= '9' by {
                if j < k {
                    assert(t.take(k)[j] == t.take(k + 1)[j]);
                }
            }
        }
        if n > max / 10 || d > max - n * 10 {
            proof {
                assert(number(t.take(k + 1)) > max);
                if all_digits(t) {
                    lemma_number_grows(t, k + 1);
                }
            }
            return None;
        }
        n = n * 10 + d;
        i += 1;
    }
    assert(t.take(i - start) =~= t);
    Some(n)
}

/// Why a text is no number.
#[derive(Clone, Copy, PartialEq, Eq, Structural, Debug)]
pub enum NumberError {
    /// It is empty.
    Empty,
    /// A character is no digit.
    InvalidDigit,
    /// The number is too large.
    TooLarge,
}

/// What is said of a text that is no number.
pub open spec fn number_message(e: NumberError) -> Seq<char> {
    match e {
        NumberError::Empty => "cannot parse integer from empty string"@,
        NumberError::InvalidDigit => "invalid digit found in string"@,
        NumberError::TooLarge => "number too large to fit in target type"@,
    }
}

impl NumberError {
    /// What is said of it.
    pub fn message(&self) -> (s: &'static str)
        ensures
            s@ == number_message(*self),
    {
        match self {
            NumberError::Empty => "cannot parse integer from empty string",
            NumberError::InvalidDigit => "invalid digit found in string",
            NumberError::TooLarge => "number too large to fit in target type",
        }
    }
}

/// The number that the first `n` digits of a text denote, or what is wrong with the
/// first of them that cannot be read.
pub open spec fn scanned(t: Seq<char>, n: int, max: int) -> Result<int, NumberError>
    decreases n,
{
    if n <= 0 {
        Ok(0)
    } else {
        match scanned(t, n - 1, max) {
            Err(e) => Err(e),
            Ok(v) => {
                let d = t[n - 1] as int - '0' as int;
                if d < 0 || d > 9 {
                    Err(NumberError::InvalidDigit)
                } else if 10 * v + d > max {
                    Err(NumberError::TooLarge)
                } else {
                    Ok(10 * v + d)
                }
            },
        }
    }
}

/// The unsigned number that a text denotes: digits, after a plus sign or without
/// one, no larger than `max`.
pub open spec fn read_number(s: Seq<char>, max: int) -> Result<int, NumberError> {
    if s.len() == 0 {
        Err(NumberError::Empty)
    } else if s[0] == '+' {
        if s.len() == 1 {
            Err(NumberError::InvalidDigit)
        } else {
            scanned(s.skip(1), s.len() - 1, max)
        }
    } else {
        scanned(s, s.len() as int, max)
    }
}

/// A failure among the first digits is the failure of all.
proof fn lemma_scan_fails(t: Seq<char>, k: int, n: int, max: int)
    requires
        0 <= k <= n,
        scanned(t, k, max) is Err,
    ensures
        scanned(t, n, max) == scanned(t, k, max),
    decreases n - k,
{
    if k < n {
        lemma_scan_fails(t, k, n - 1, max);
    }
}

/// The unsigned number that a text denotes.
pub fn parse_number(s: &str, max: u64) -> (r: Result<u64, NumberError>)
    ensures
        match r {
            Ok(n) => read_number(s@, max as int) == Ok::<int, NumberError>(n as int),
            Err(e) => read_number(s@, max as int) == Err::<int, NumberError>(e),
        },
{
    let v: Vec<char> = chars_of(s);
    let len: usize = v.len();
    if len == 0 {
        return Err(NumberError::Empty);
    }
    let start: usize = if v[0] == '+' {
        1
    } else {
        0
    };
    if start == len {
        return Err(NumberError::InvalidDigit);
    }
    let ghost t = s@.skip(start as int);
    proof {
        assert(s@.skip(0) =~= s@);
    }
    let mut n: u64 = 0;
    let mut i: usize = start;
    while i < len
        invariant
            start <= i <= len,
            v@ == s@,
            len == v@.len(),
            t == s@.skip(start as int),
            n <= max,
            scanned(t, i - start, max as int) == Ok::<int, NumberError>(n as int),
            read_number(s@, max as int) == scanned(t, len - start, max as int),
        decreases len - i,
    {
        let c = v[i];
        assert(t[i - start] == c);
        if !('0' <= c && c <= '9') {
            proof {
                lemma_scan_fails(t, i - start + 1, len - start, max as int);
            }
            return Err(NumberError::InvalidDigit);
        }
        let d: u64 = c as u64 - '0' as u64;
        if n > max / 10 || d > max - n * 10 {
            proof {
                lemma_scan_fails(t, i - start + 1, len - start, max as int);
            }
            return Err(NumberError::TooLarge);
        }
        n = n * 10 + d;
        i += 1;
    }
    Ok(n)
}

/// A text without `suffix` at its end, if it stands there.
pub open spec fn without_suffix(s: Seq<char>, suffix: Seq<char>) -> Option<Seq<char>> {
    if suffix.len() <= s.len() && s.skip(s.len() - suffix.len()) == suffix {
        Some(s.take(s.len() - suffix.len()))
    } else {
        None
    }
}

/// A copy of a text without `suffix` at its end, if it stands there.
pub fn strip_suffix(s: &str, suffix: &str) -> (r: Option<String>)
    ensures
        match r {
            Some(t) => without_suffix(s@, suffix@) == Some(t@),
            None => without_suffix(s@, suffix@) is None,
        },
{
    let v: Vec<char> = chars_of(s);
    let w: Vec<char> = chars_of(suffix);
    let n: usize = v.len();
    let m: usize = w.len();
    if m > n {
        return None;
    }
    let mut i: usize = 0;
    while i < m
        invariant
            v@ == s@,
            w@ == suffix@,
            n == v@.len(),
            m == w@.len(),
            i <= m <= n,
            forall|k: int| 0 <= k < i ==> s@[n - m + k] == suffix@[k],
        decreases m - i,
    {
        if v[n - m + i] != w[i] {
            assert(s@.skip(n - m)[i as int] != suffix@[i as int]);
            return None;
        }
        i += 1;
    }
    assert(s@.skip(n - m) =~= suffix@);
    let head = vstd::slice::slice_subrange(v.as_slice(), 0, n - m);
    assert(head@ =~= s@.take(n - m));
    Some(text_of(head))
}

/// The lower-case form of a text, by the tables of Unicode.
pub uninterp spec fn lowercase(s: Seq<char>) -> Seq<char>;

/// The upper-case form of a text, by the tables of Unicode.
pub uninterp spec fn uppercase(s: Seq<char>) -> Seq<char>;

/// `str::to_lowercase`: the lower-case form of a text.
#[verifier::external_body]
pub(crate) fn to_lowercase(s: &str) -> (r: String)
    ensures
        r@ == lowercase(s@),
{
    s.to_lowercase()
}

/// `str::to_uppercase`: the upper-case form of a text.
#[verifier::external_body]
pub(crate) fn to_uppercase(s: &str) -> (r: String)
    ensures
        r@ == uppercase(s@),
{
    s.to_uppercase()
}

/// A copy of a text.
pub fn copy_text(s: &str) -> (r: String)
    ensures
        r@ == s@,
{
    let mut r = String::new();
    r.append(s);
    assert(r@ =~= s@);
    r
}

/// The bytes of a text.
pub fn bytes_of(s: &str) -> (r: Vec<u8>)
    ensures
        r@ == s.spec_bytes(),
{
    vstd::slice::slice_to_vec(s.as_bytes())
}

/// A copy of an optional text.
pub fn copy_opt(s: Option<&str>) -> (r: Option<String>)
    ensures
        match (s, r) {
            (Some(a), Some(b)) => a@ == b@,
            (None, None) => true,
            _ => false,
        },
{
    match s {
        Some(t) => Some(copy_text(t)),
        None => None,
    }
}

/// What an optional text of one's own says.
pub open spec fn own_text(s: Option<String>) -> Option<Seq<char>> {
    match s {
        Some(t) => Some(t@),
        None => None,
    }
}

/// What the texts of a list say.
pub open spec fn texts(v: Seq<String>) -> Seq<Seq<char>> {
    v.map_values(|s: String| s@)
}

/// The texts of `parts`, one after the other, with `sep` between them.
pub open spec fn joined(parts: Seq<Seq<char>>, sep: Seq<char>) -> Seq<char>
    decreases parts.len(),
{
    if parts.len() == 0 {
        Seq::empty()
    } else if parts.len() == 1 {
        parts[0]
    } else {
        joined(parts.drop_last(), sep) + sep + parts.last()
    }
}

/// Appends the texts of `parts`, with `sep` between them.
pub fn push_joined(s: &mut String, parts: &[String], sep: &str)
    ensures
        final(s)@ == old(s)@ + joined(texts(parts@), sep@),
{
    let mut i: usize = 0;
    assert(s@ =~= old(s)@ + joined(texts(parts@.take(0)), sep@));
    while i < parts.len()
        invariant
            i <= parts@.len(),
            s@ == old(s)@ + joined(texts(parts@.take(i as int)), sep@),
        decreases parts@.len() - i,
    {
        let ghost done = texts(parts@.take(i as int));
        let ghost more = texts(parts@.take(i + 1));
        if i > 0 {
            s.append(sep);
        }
        s.append(parts[i].as_str());
        proof {
            assert(more.drop_last() =~= done);
            assert(more.last() == parts@[i as int]@);
            assert(s@ =~= old(s)@ + joined(more, sep@));
        }
        i += 1;
    }
    assert(parts@.take(i as int) =~= parts@);
}

/// Whether `s` begins with `prefix`.
pub open spec fn begins_with(s: Seq<char>, prefix: Seq<char>) -> bool {
    prefix.len() <= s.len() && s.take(prefix.len() as int) == prefix
}

/// Whether `s` begins with `prefix`.
pub fn starts_with(s: &str, prefix: &str) -> (r: bool)
    ensures
        r == begins_with(s@, prefix@),
{
    let n: usize = prefix.unicode_len();
    if n > s.unicode_len() {
        return false;
    }
    let mut i: usize = 0;
    while i < n
        invariant
            i <= n == prefix@.len() <= s@.len(),
            forall|k: int| 0 <= k < i ==> s@[k] == prefix@[k],
        decreases n - i,
    {
        if s.get_char(i) != prefix.get_char(i) {
            assert(s@.take(n as int)[i as int] != prefix@[i as int]);
            return false;
        }
        i += 1;
    }
    assert(s@.take(n as int) =~= prefix@);
    true
}

/// Whether `part` stands in `s` at place `from`.
pub open spec fn stands_at(s: Seq<char>, part: Seq<char>, from: int) -> bool {
    0 <= from && from + part.len() <= s.len() && s.subrange(from, from + part.len()) == part
}

/// Whether `part` stands anywhere in `s`.
pub open spec fn holds(s: Seq<char>, part: Seq<char>) -> bool {
    exists|from: int| #[trigger] stands_at(s, part, from)
}

/// Whether `part` stands anywhere in `s`.
pub fn contains_text(s: &str, part: &str) -> (r: bool)
    ensures
        r == holds(s@, part@),
{
    let sv: Vec<char> = chars_of(s);
    let pv: Vec<char> = chars_of(part);
    let n: usize = sv.len();
    let m: usize = pv.len();
    let mut from: usize = 0;
    while m <= n && from <= n - m
        invariant
            sv@ == s@,
            pv@ == part@,
            n == sv@.len(),
            m == pv@.len(),
            m <= n ==> from <= n - m + 1,
            forall|k: int| 0 <= k < from ==> !(#[trigger] stands_at(s@, part@, k)),
        decreases n - from + 1,
    {
        let mut i: usize = 0;
        while i < m && sv[from + i] == pv[i]
            invariant
                sv@ == s@,
                pv@ == part@,
                i <= m,
                n == sv@.len(),
                m == pv@.len(),
                from + m <= n,
                forall|k: int| 0 <= k < i ==> s@[from + k] == part@[k],
            decreases m - i,
        {
            i += 1;
        }
        if i == m {
            assert(s@.subrange(from as int, from + m) =~= part@);
            assert(stands_at(s@, part@, from as int));
            return true;
        }
        assert(s@.subrange(from as int, from + m)[i as int] != part@[i as int]);
        assert(!stands_at(s@, part@, from as int));
        from += 1;
    }
    assert forall|k: int| !(#[trigger] stands_at(s@, part@, k)) by {
        if 0 <= k && k + m <= n {
            assert(k < from);
        }
    }
    false
}

/// A text without any occurrence of `c`.
pub open spec fn without(s: Seq<char>, c: char) -> Seq<char> {
    s.filter(|x: char| x != c)
}

/// A copy of a text without any occurrence of `c`.
pub fn remove_char(s: &str, c: char) -> (r: String)
    ensures
        r@ == without(s@, c),
{
    broadcast use vstd::seq_lib::group_filter_ensures;

    let v: Vec<char> = chars_of(s);
    let mut r = String::new();
    let mut i: usize = 0;
    assert(r@ =~= without(v@.take(0), c));
    while i < v.len()
        invariant
            i <= v@.len(),
            r@ == without(v@.take(i as int), c),
        decreases v@.len() - i,
    {
        proof {
            assert(v@.take(i + 1).drop_last() =~= v@.take(i as int));
            reveal(Seq::filter);
        }
        if v[i] != c {
            r.push(v[i]);
        }
        i += 1;
    }
    assert(v@.take(i as int) =~= v@);
    r
}

/// A number that was written in decimal is read back: its digits denote it, none of them is
/// missing or in front without need, and both readers give it where it is not too large,
/// with or without a plus sign.
pub proof fn law_numbers_read_back(n: nat, max: nat)
    ensures
        all_digits(decimal(n)),
        decimal(n).len() > 0,
        decimal(n).len() > 1 ==> decimal(n)[0] != '0',
        number(decimal(n)) == n,
        n <= max ==> unsigned(decimal(n), max) == Some(n),
        n > max ==> unsigned(decimal(n), max) is None,
        n <= max ==> unsigned(seq!['+'] + decimal(n), max) == Some(n),
        n <= max ==> read_number(decimal(n), max as int) == Ok::<int, NumberError>(n as int),
        n > max ==> read_number(decimal(n), max as int) == Err::<int, NumberError>(
            NumberError::TooLarge,
        ),
        n <= max ==> read_number(seq!['+'] + decimal(n), max as int) == Ok::<int, NumberError>(
            n as int,
        ),
{
    lemma_decimal_denotes(n);
    let t = decimal(n);
    assert(t[0] != '+') by {
        assert('0' <= t[0] <= '9');
    }
    let p = seq!['+'] + t;
    assert(p.skip(1) =~= t);
    lemma_scanned(t, t.len() as int, max as int);
    assert(t.take(t.len() as int) =~= t);
}

proof fn lemma_decimal_denotes(n: nat)
    ensures
        all_digits(decimal(n)),
        decimal(n).len() > 0,
        decimal(n).len() > 1 ==> decimal(n)[0] != '0',
        n > 0 ==> decimal(n)[0] != '0',
        number(decimal(n)) == n,
    decreases n,
{
    reveal_with_fuel(number, 2);
    if n >= 10 {
        lemma_decimal_denotes(n / 10);
        let front = decimal(n / 10);
        assert(decimal(n).drop_last() =~= front);
        assert(decimal(n)[0] == front[0]);
        assert forall|i: int| 0 <= i < decimal(n).len() implies '0' <= #[trigger] decimal(n)[i] <= '9' by {
            if i < front.len() {
                assert(decimal(n)[i] == front[i]);
            }
        }
    } else {
        assert(decimal(n).drop_last() =~= Seq::<char>::empty());
    }
}

proof fn lemma_scanned(t: Seq<char>, n: int, max: int)
    requires
        0 <= n <= t.len(),
        0 <= max,
        all_digits(t),
    ensures
        number(t.take(n)) <= max ==> scanned(t, n, max) == Ok::<int, NumberError>(
            number(t.take(n)) as int,
        ),
        number(t.take(n)) > max ==> scanned(t, n, max) == Err::<int, NumberError>(
            NumberError::TooLarge,
        ),
    decreases n,
{
    if n > 0 {
        lemma_scanned(t, n - 1, max);
        assert(t.take(n).drop_last() =~= t.take(n - 1));
        assert('0' <= t[n - 1] <= '9');
        assert(number(t.take(n)) == number(t.take(n - 1)) * 10 + (t[n - 1] as nat - '0' as nat));
    }
}

/// A text is its trimmed part with white space before and behind it, and the trimmed part
/// neither begins nor ends with any.
pub proof fn law_trimming_takes_white_space_only(s: Seq<char>)
    ensures
        trim(s).len() > 0 ==> !is_space(trim(s)[0]) && !is_space(trim(s).last()),
        exists|a: int, b: int|
            0 <= a <= b <= s.len() && trim(s) == #[trigger] s.subrange(a, b) && (forall|i: int|
                0 <= i < a || b <= i < s.len() ==> is_space(#[trigger] s[i])),
{
    lemma_trim_start(s);
    let t = trim_start(s);
    let a = s.len() - t.len();
    lemma_trim_end(t);
    let b = a + trim(s).len();
    assert(trim(s) =~= s.subrange(a, b));
    assert forall|i: int| 0 <= i < a || b <= i < s.len() implies is_space(#[trigger] s[i]) by {
        if i >= b {
            assert(t[i - a] == s[i]);
        }
    }
    if trim(s).len() > 0 {
        assert(trim(s)[0] == t[0]);
    }
    assert(0 <= a <= b <= s.len() && trim(s) == s.subrange(a, b) && (forall|i: int|
        0 <= i < a || b <= i < s.len() ==> is_space(#[trigger] s[i])));
}

proof fn lemma_trim_start(s: Seq<char>)
    ensures
        trim_start(s).len() <= s.len(),
        trim_start(s) == s.skip(s.len() - trim_start(s).len()),
        forall|i: int| 0 <= i < s.len() - trim_start(s).len() ==> is_space(#[trigger] s[i]),
        trim_start(s).len() > 0 ==> !is_space(trim_start(s)[0]),
    decreases s.len(),
{
    if s.len() > 0 && is_space(s[0]) {
        let r = s.skip(1);
        lemma_trim_start(r);
        assert(r.skip(r.len() - trim_start(r).len()) =~= s.skip(s.len() - trim_start(r).len()));
        assert forall|i: int| 0 <= i < s.len() - trim_start(s).len() implies is_space(
            #[trigger] s[i],
        ) by {
            if i > 0 {
                assert(s[i] == r[i - 1]);
            }
        }
    } else {
        assert(s.skip(0) =~= s);
    }
}

proof fn lemma_trim_end(s: Seq<char>)
    ensures
        trim_end(s).len() <= s.len(),
        trim_end(s) == s.take(trim_end(s).len() as int),
        forall|i: int| trim_end(s).len() <= i < s.len() ==> is_space(#[trigger] s[i]),
        trim_end(s).len() > 0 ==> !is_space(trim_end(s).last()),
    decreases s.len(),
{
    if s.len() > 0 && is_space(s.last()) {
        let r = s.drop_last();
        lemma_trim_end(r);
        assert(r.take(trim_end(r).len() as int) =~= s.take(trim_end(r).len() as int));
        assert forall|i: int| trim_end(s).len() <= i < s.len() implies is_space(#[trigger] s[i]) by {
            if i < s.len() - 1 {
                assert(s[i] == r[i]);
            }
        }
    } else {
        assert(s.take(s.len() as int) =~= s);
    }
}

/// A suffix that stands at the end is taken off, and nothing else: a text has a rest without
/// the suffix exactly when it is that rest and the suffix.
pub proof fn law_suffix_is_taken_off(s: Seq<char>, suffix: Seq<char>)
    ensures
        without_suffix(s + suffix, suffix) == Some(s),
        without_suffix(s, suffix) matches Some(rest) ==> s == rest + suffix,
{
    let w = s + suffix;
    assert(w.skip(w.len() - suffix.len()) =~= suffix);
    assert(w.take(w.len() - suffix.len()) =~= s);
    if let Some(rest) = without_suffix(s, suffix) {
        assert(s =~= rest + suffix);
    }
}

/// Texts that are joined stand one after the other with the separator between them: two
/// lists joined are the first, the separator and the second.
pub proof fn law_joining_puts_the_separator_between(
    a: Seq<Seq<char>>,
    b: Seq<Seq<char>>,
    sep: Seq<char>,
)
    requires
        a.len() > 0,
        b.len() > 0,
    ensures
        joined(a + b, sep) == joined(a, sep) + sep + joined(b, sep),
        joined(seq![a[0]], sep) == a[0],
    decreases b.len(),
{
    let c = b.drop_last();
    assert((a + b).drop_last() =~= a + c);
    if b.len() == 1 {
        assert(a + c =~= a);
    } else {
        law_joining_puts_the_separator_between(a, c, sep);
        assert(joined(a, sep) + sep + joined(c, sep) + sep + b.last() =~= joined(a, sep) + sep + (
        joined(c, sep) + sep + b.last()));
    }
}

/// A text without a character keeps all others in their order: it holds that character
/// nowhere, one more character is kept exactly when it is another one, and two texts joined
/// keep what the first keeps and then what the second does.
pub proof fn law_removing_a_character(a: Seq<char>, b: Seq<char>, c: char, d: char)
    ensures
        without(Seq::empty(), c) == Seq::<char>::empty(),
        d != c ==> without(a.push(d), c) == without(a, c).push(d),
        without(a.push(c), c) == without(a, c),
        without(a + b, c) == without(a, c) + without(b, c),
        !without(a, c).contains(c),
    decreases a.len() + b.len(),
{
    reveal(Seq::filter);
    assert(a.push(d).drop_last() =~= a);
    assert(a.push(c).drop_last() =~= a);
    if b.len() > 0 {
        law_removing_a_character(a, b.drop_last(), c, d);
        assert((a + b).drop_last() =~= a + b.drop_last());
        assert((a + b).last() == b.last());
        let x = b.last();
        if x != c {
            assert(without(a, c) + without(b.drop_last(), c).push(x) =~= (without(a, c) + without(
                b.drop_last(),
                c,
            )).push(x));
        }
    } else {
        assert(a + b =~= a);
        assert(without(a, c) + without(b, c) =~= without(a, c));
        if a.len() > 0 {
            law_removing_a_character(a.drop_last(), b, c, d);
        }
    }
    if b.len() > 0 && a.len() > 0 {
        law_removing_a_character(a, Seq::empty(), c, d);
    }
}

/// A part stands in a text exactly when the text is something, the part and something.
pub proof fn law_parts_stand_in_their_text(a: Seq<char>, part: Seq<char>, b: Seq<char>, s: Seq<char>)
    ensures
        holds(a + part + b, part),
        holds(s, part) ==> exists|i: int|
            0 <= i <= s.len() - part.len() && s == #[trigger] s.take(i) + part + s.skip(
                i + part.len(),
            ),
{
    let w = a + part + b;
    let n = a.len() as int;
    assert(w.subrange(n, n + part.len()) =~= part);
    assert(stands_at(w, part, n));
    if holds(s, part) {
        let i = choose|i: int| #[trigger] stands_at(s, part, i);
        assert(s =~= s.take(i) + part + s.skip(i + part.len()));
    }
}

/// A number below zero is written as a minus sign and its magnitude, any other as itself.
pub proof fn law_signs_are_written(n: nat)
    ensures
        signed_decimal(n as int) == decimal(n),
        n > 0 ==> signed_decimal(-n) == seq!['-'] + decimal(n),
{
}

} // verus!
