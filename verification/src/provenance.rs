//! Where a measurement was made: the note of the machine, the tools and the corpora.

use crate::figures::{lines, lines_from, next_of};
use crate::json::hex_digit;
use crate::text::{
    begins_with, chars_of, copy_text, decimal, push_decimal, starts_with, text_of, texts, trim,
    trim_range,
};
use vstd::prelude::*;
use vstd::slice::slice_subrange;

verus! {

/// Bytes as pairs of hexadecimal digits.
pub open spec fn hex_of(b: Seq<u8>) -> Seq<char>
    decreases b.len(),
{
    if b.len() == 0 {
        Seq::empty()
    } else {
        hex_of(b.drop_last()) + seq![
            hex_digit(b.last() as int / 16),
            hex_digit(b.last() as int % 16),
        ]
    }
}

/// A hexadecimal digit.
fn to_hex_digit(d: u8) -> (c: char)
    requires
        d < 16,
    ensures
        c == hex_digit(d as int),
{
    if d < 10 {
        (48 + d) as char
    } else {
        (87 + d) as char
    }
}

/// Bytes as pairs of hexadecimal digits.
pub fn hex(b: &[u8]) -> (s: String)
    ensures
        s@ == hex_of(b@),
{
    let mut s = String::new();
    let mut i: usize = 0;
    assert(s@ =~= hex_of(b@.take(0)));
    while i < b.len()
        invariant
            i <= b@.len(),
            s@ == hex_of(b@.take(i as int)),
        decreases b@.len() - i,
    {
        let ghost before = s@;
        s.push(to_hex_digit(b[i] / 16));
        s.push(to_hex_digit(b[i] % 16));
        proof {
            assert(b@.take(i + 1).drop_last() =~= b@.take(i as int));
            assert(s@ =~= before + seq![
                hex_digit(b@[i as int] as int / 16),
                hex_digit(b@[i as int] as int % 16),
            ]);
        }
        i += 1;
    }
    assert(b@.take(i as int) =~= b@);
    s
}

/// A text with its backslashes and quotation marks escaped.
pub open spec fn escaped_note(s: Seq<char>) -> Seq<char>
    decreases s.len(),
{
    if s.len() == 0 {
        Seq::empty()
    } else {
        let c = s.last();
        escaped_note(s.drop_last()) + if c == '\\' || c == '"' {
            seq!['\\', c]
        } else {
            seq![c]
        }
    }
}

/// A text with its backslashes and quotation marks escaped.
pub fn json_escape(s: &str) -> (r: String)
    ensures
        r@ == escaped_note(s@),
{
    let v: Vec<char> = chars_of(s);
    let mut r = String::new();
    let mut i: usize = 0;
    assert(r@ =~= escaped_note(v@.take(0)));
    while i < v.len()
        invariant
            i <= v@.len(),
            r@ == escaped_note(v@.take(i as int)),
        decreases v@.len() - i,
    {
        let ghost before = r@;
        let c = v[i];
        if c == '\\' || c == '"' {
            r.push('\\');
        }
        r.push(c);
        proof {
            assert(v@.take(i + 1).drop_last() =~= v@.take(i as int));
            assert(r@ =~= before + if c == '\\' || c == '"' {
                seq!['\\', c]
            } else {
                seq![c]
            });
        }
        i += 1;
    }
    assert(v@.take(i as int) =~= v@);
    r
}

/// What stands between the first colon and the second, without white space around
/// it; nothing where there is no colon.
pub open spec fn after_colon(line: Seq<char>) -> Option<Seq<char>> {
    let a = next_of(line, ':', 0);
    if a >= line.len() {
        None
    } else {
        Some(trim(line.subrange(a + 1, next_of(line, ':', a + 1))))
    }
}

/// The value in the first of the lines from `from` on that begins with `key`.
pub open spec fn value_from(lines: Seq<Seq<char>>, key: Seq<char>, from: int) -> Option<Seq<char>>
    decreases lines.len() - from,
{
    if from >= lines.len() {
        None
    } else if begins_with(lines[from], key) {
        after_colon(lines[from])
    } else {
        value_from(lines, key, from + 1)
    }
}

/// What stands between the first colon and the second.
fn read_after_colon(line: &str) -> (r: Option<String>)
    ensures
        match r {
            Some(s) => after_colon(line@) == Some(s@),
            None => after_colon(line@) is None,
        },
{
    let v: Vec<char> = chars_of(line);
    let n: usize = v.len();
    let mut a: usize = 0;
    while a < n && v[a] != ':'
        invariant
            a <= n == v@.len(),
            next_of(v@, ':', a as int) == next_of(v@, ':', 0),
        decreases n - a,
    {
        a += 1;
    }
    if a == n {
        return None;
    }
    let mut b: usize = a + 1;
    while b < n && v[b] != ':'
        invariant
            a < b <= n == v@.len(),
            next_of(v@, ':', b as int) == next_of(v@, ':', a + 1),
        decreases n - b,
    {
        b += 1;
    }
    let (lo, hi) = trim_range(v.as_slice(), a + 1, b);
    let part = slice_subrange(v.as_slice(), lo, hi);
    Some(text_of(part))
}

/// The value of a key in a listing of keys and values, or "unknown".
pub fn cpuinfo(text: &str, key: &str) -> (r: String)
    ensures
        r@ == (match value_from(lines_from(text@, 0), key@, 0) {
            Some(v) => v,
            None => "unknown"@,
        }),
{
    let all = lines(text);
    let ghost want = lines_from(text@, 0);
    assert(want.len() == all@.len());
    let mut i: usize = 0;
    while i < all.len()
        invariant
            i <= all@.len(),
            want == texts(all@),
            want == lines_from(text@, 0),
            value_from(want, key@, 0) == value_from(want, key@, i as int),
        decreases all@.len() - i,
    {
        assert(want[i as int] == all@[i as int]@);
        if starts_with(all[i].as_str(), key) {
            return match read_after_colon(all[i].as_str()) {
                Some(v) => v,
                None => copy_text("unknown"),
            };
        }
        i += 1;
    }
    copy_text("unknown")
}

/// What a corpus is known by: its length and its first and last bytes.
#[derive(Debug)]
pub struct Fingerprint {
    /// The length.
    pub bytes: u64,
    /// Up to sixteen bytes from the front.
    pub head: String,
    /// Up to sixteen bytes from the end.
    pub tail: String,
}

/// What a corpus is known by.
pub fn corpus_provenance(bytes: &[u8]) -> (f: Fingerprint)
    ensures
        f.bytes == bytes@.len(),
        f.head@ == hex_of(
            if bytes@.len() < 16 {
                bytes@
            } else {
                bytes@.take(16)
            },
        ),
        f.tail@ == hex_of(
            if bytes@.len() < 16 {
                bytes@
            } else {
                bytes@.skip(bytes@.len() - 16)
            },
        ),
{
    let n: usize = bytes.len();
    let k: usize = if n < 16 {
        n
    } else {
        16
    };
    let head = slice_subrange(bytes, 0, k);
    let tail = slice_subrange(bytes, n - k, n);
    proof {
        assert(bytes@.subrange(0, bytes@.len() as int) =~= bytes@);
        if n >= 16 {
            assert(head@ =~= bytes@.take(16));
            assert(tail@ =~= bytes@.skip(n - 16));
        }
    }
    Fingerprint { bytes: n as u64, head: hex(head), tail: hex(tail) }
}

/// The machine and the tools.
#[derive(Debug)]
pub struct Machine {
    /// The processor.
    pub cpu_model: String,
    /// How many cores it has.
    pub logical_cores: String,
    /// What sets its clock.
    pub cpu_governor: String,
    /// The kernel.
    pub kernel: String,
    /// The compiler.
    pub rustc: String,
    /// The commit.
    pub git_commit: String,
}

/// A line of the note: a name and a text.
pub open spec fn text_line(name: Seq<char>, value: Seq<char>) -> Seq<char> {
    "  \""@ + name + "\": \""@ + escaped_note(value) + "\",\n"@
}

/// Appends a line of the note.
fn push_line(s: &mut String, name: &str, value: &str)
    ensures
        final(s)@ == old(s)@ + text_line(name@, value@),
{
    s.append("  \"");
    s.append(name);
    s.append("\": \"");
    s.append(json_escape(value).as_str());
    s.append("\",\n");
    assert(s@ =~= old(s)@ + text_line(name@, value@));
}

/// The line of a corpus: its name, and what it is known by where it could be read.
pub open spec fn corpus_line(name: Seq<char>, f: Option<Fingerprint>) -> Seq<char> {
    match f {
        Some(x) => "    { \"name\": \""@ + name + "\", \"bytes\": "@ + decimal(x.bytes as nat)
            + ", \"first16_hex\": \""@ + x.head@ + "\", \"last16_hex\": \""@ + x.tail@ + "\" }"@,
        None => "    { \"name\": \""@ + name + "\", \"bytes\": null }"@,
    }
}

/// The lines of the first `n` corpora, with commas between all of them.
pub open spec fn corpus_lines(corpora: Seq<(String, Option<Fingerprint>)>, n: int) -> Seq<char>
    decreases n,
{
    if n <= 0 {
        Seq::empty()
    } else {
        corpus_lines(corpora, n - 1) + corpus_line(corpora[n - 1].0@, corpora[n - 1].1) + if n
            == corpora.len() {
            "\n"@
        } else {
            ",\n"@
        }
    }
}

/// The note of a measurement.
pub open spec fn env_note(
    m: Machine,
    overhead_ns: u64,
    corpora: Seq<(String, Option<Fingerprint>)>,
) -> Seq<char> {
    "{\n"@ + text_line("cpu_model"@, m.cpu_model@) + text_line(
        "logical_cores"@,
        m.logical_cores@,
    ) + text_line("cpu_governor"@, m.cpu_governor@) + text_line("kernel"@, m.kernel@) + text_line(
        "rustc"@,
        m.rustc@,
    ) + "  \"target_cpu\": \"native\",\n"@ + text_line("git_commit"@, m.git_commit@)
        + "  \"pinned_core\": 0,\n  \"clock_overhead_ns\": "@ + decimal(overhead_ns as nat)
        + ",\n  \"corpora\": [\n"@ + corpus_lines(corpora, corpora.len() as int) + "  ]\n}\n"@
}

/// The note of a measurement.
pub fn env_json(
    m: &Machine,
    overhead_ns: u64,
    corpora: &[(String, Option<Fingerprint>)],
) -> (s: String)
    ensures
        s@ == env_note(*m, overhead_ns, corpora@),
{
    let mut s = copy_text("{\n");
    push_line(&mut s, "cpu_model", m.cpu_model.as_str());
    push_line(&mut s, "logical_cores", m.logical_cores.as_str());
    push_line(&mut s, "cpu_governor", m.cpu_governor.as_str());
    push_line(&mut s, "kernel", m.kernel.as_str());
    push_line(&mut s, "rustc", m.rustc.as_str());
    s.append("  \"target_cpu\": \"native\",\n");
    push_line(&mut s, "git_commit", m.git_commit.as_str());
    s.append("  \"pinned_core\": 0,\n  \"clock_overhead_ns\": ");
    push_decimal(&mut s, overhead_ns);
    s.append(",\n  \"corpora\": [\n");
    let ghost head = s@;
    let mut i: usize = 0;
    assert(s@ =~= head + corpus_lines(corpora@, 0));
    while i < corpora.len()
        invariant
            i <= corpora@.len(),
            s@ == head + corpus_lines(corpora@, i as int),
        decreases corpora@.len() - i,
    {
        let ghost before = s@;
        let (name, known) = &corpora[i];
        s.append("    { \"name\": \"");
        s.append(name.as_str());
        match known {
            Some(f) => {
                s.append("\", \"bytes\": ");
                push_decimal(&mut s, f.bytes);
                s.append(", \"first16_hex\": \"");
                s.append(f.head.as_str());
                s.append("\", \"last16_hex\": \"");
                s.append(f.tail.as_str());
                s.append("\" }");
            },
            None => {
                s.append("\", \"bytes\": null }");
            },
        }
        assert(s@ =~= before + corpus_line(corpora@[i as int].0@, corpora@[i as int].1));
        i += 1;
        if i == corpora.len() {
            s.append("\n");
        } else {
            s.append(",\n");
        }
        assert(s@ =~= head + corpus_lines(corpora@, i as int));
    }
    s.append("  ]\n}\n");
    assert(s@ =~= env_note(*m, overhead_ns, corpora@));
    s
}

/// Bytes in hexadecimal are two digits to a byte, the higher half first.
pub proof fn law_two_digits_to_a_byte(b: Seq<u8>, i: int)
    requires
        0 <= i < b.len(),
    ensures
        hex_of(b).len() == 2 * b.len(),
        hex_of(b)[2 * i] == hex_digit(b[i] as int / 16),
        hex_of(b)[2 * i + 1] == hex_digit(b[i] as int % 16),
    decreases b.len(),
{
    lemma_hex_len(b);
    lemma_hex_len(b.drop_last());
    if i < b.len() - 1 {
        law_two_digits_to_a_byte(b.drop_last(), i);
    }
}

proof fn lemma_hex_len(b: Seq<u8>)
    ensures
        hex_of(b).len() == 2 * b.len(),
    decreases b.len(),
{
    if b.len() > 0 {
        lemma_hex_len(b.drop_last());
    }
}

/// A note keeps every character of a text and puts a backslash before each backslash and
/// each quotation mark.
pub proof fn law_notes_escape_marks(s: Seq<char>, c: char)
    ensures
        escaped_note(Seq::empty()) == Seq::<char>::empty(),
        c == '\\' || c == '"' ==> escaped_note(s.push(c)) == escaped_note(s) + seq!['\\', c],
        c != '\\' && c != '"' ==> escaped_note(s.push(c)) == escaped_note(s) + seq![c],
{
    assert(s.push(c).drop_last() =~= s);
}

/// The value under a key is what stands between the first colon and the next one, or the
/// end, of the first line that begins with the key, without the white space around it.
pub proof fn law_values_follow_the_first_key(
    lines: Seq<Seq<char>>,
    key: Seq<char>,
    from: int,
    i: int,
)
    requires
        0 <= from <= i <= lines.len(),
        forall|j: int| from <= j < i ==> !begins_with(#[trigger] lines[j], key),
    ensures
        i < lines.len() && begins_with(lines[i], key) ==> value_from(lines, key, from)
            == after_colon(lines[i]),
        i == lines.len() ==> value_from(lines, key, from) is None,
    decreases i - from,
{
    if from < i {
        assert(!begins_with(lines[from], key));
        law_values_follow_the_first_key(lines, key, from + 1, i);
    }
}

} // verus!
