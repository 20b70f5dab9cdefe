//! What the measurement programs share: the registry of books and the lists of
//! processor cores.

use crate::text::{
    chars_of, decimal, is_space, law_numbers_read_back, law_trimming_takes_white_space_only,
    parse_unsigned, same_text, trim, trim_range, unsigned,
};
use vstd::prelude::*;

verus! {

/// The books under measurement.
pub const IMPLS: [&'static str; 4] = ["btree", "sorted", "rev", "flat"];

/// Runs `op` `iters` times, to warm caches before anything is measured.
#[inline]
pub fn warmup(iters: u64, op: impl FnMut())
    requires
        op.requires(()),
{
    let mut op = op;
    let mut i: u64 = 0;
    while i < iters
        invariant
            i <= iters,
            op.requires(()),
        decreases iters - i,
    {
        op();
        i += 1;
    }
}

/// The registered name that equals `name`, if there is one.
#[must_use]
pub fn for_impl(name: &str) -> (r: Option<&'static str>)
    ensures
        match r {
            Some(s) => s@ == name@ && exists|i: int| 0 <= i < 4 && #[trigger] IMPLS@[i]@ == name@,
            None => forall|i: int| 0 <= i < 4 ==> #[trigger] IMPLS@[i]@ != name@,
        },
{
    let mut i: usize = 0;
    while i < 4
        invariant
            i <= 4,
            forall|k: int| 0 <= k < i ==> #[trigger] IMPLS@[k]@ != name@,
        decreases 4 - i,
    {
        if same_text(IMPLS[i], name) {
            return Some(IMPLS[i]);
        }
        i += 1;
    }
    None
}

/// Whether a character separates the entries of a core list.
pub open spec fn is_separator(c: char) -> bool {
    c == ',' || c == ' '
}

/// The place of the first separator from `from` on, or the end.
pub open spec fn next_separator(s: Seq<char>, from: int) -> int
    decreases s.len() - from,
{
    if from >= s.len() {
        s.len() as int
    } else if is_separator(s[from]) {
        from
    } else {
        next_separator(s, from + 1)
    }
}

/// The core numbers in a list from `from` on: the entries that are numbers.
pub open spec fn cores_from(s: Seq<char>, from: int) -> Seq<usize>
    decreases s.len() - from + 1,
{
    if from > s.len() {
        Seq::empty()
    } else {
        let end = next_separator(s, from);
        let rest = if end < from || end >= s.len() {
            Seq::empty()
        } else {
            cores_from(s, end + 1)
        };
        match unsigned(trim(s.subrange(from, end)), usize::MAX as nat) {
            Some(n) => seq![n as usize] + rest,
            None => rest,
        }
    }
}

/// The core numbers in a list that commas and blanks separate; what is no number
/// is passed over.
#[must_use]
pub fn parse_core_list(s: &str) -> (cores: Vec<usize>)
    ensures
        cores@ == cores_from(s@, 0),
{
    let chars = chars_of(s);
    let n: usize = chars.len();
    let mut cores: Vec<usize> = Vec::new();
    let mut from: usize = 0;
    loop
        invariant_except_break
            cores@ + cores_from(chars@, from as int) == cores_from(chars@, 0),
        invariant
            from <= n,
            n == chars@.len(),
        ensures
            cores@ == cores_from(chars@, 0),
        decreases n - from,
    {
        let mut end: usize = from;
        while end < n && !(chars[end] == ',' || chars[end] == ' ')
            invariant
                from <= end <= n,
                n == chars@.len(),
                next_separator(chars@, end as int) == next_separator(chars@, from as int),
            decreases n - end,
        {
            end += 1;
        }
        assert(end == next_separator(chars@, from as int));
        let (a, b) = trim_range(chars.as_slice(), from, end);
        let ghost before = cores@;
        let ghost rest = if end >= n {
            Seq::<usize>::empty()
        } else {
            cores_from(chars@, end + 1)
        };
        if let Some(core) = parse_unsigned(chars.as_slice(), a, b, usize::MAX as u64) {
            cores.push(core as usize);
            assert(cores@ + rest =~= before + (seq![core as usize] + rest));
        }
        if end >= n {
            assert(cores@ + rest =~= cores@);
            break;
        }
        from = end + 1;
    }
    cores
}

/// Separators are found alike in a text and behind another one.
proof fn lemma_next_separator_behind(front: Seq<char>, s: Seq<char>, from: int)
    requires
        0 <= from <= s.len(),
    ensures
        next_separator(front + s, front.len() + from) == front.len() + next_separator(s, from),
        from <= next_separator(s, from) <= s.len(),
    decreases s.len() - from,
{
    if from < s.len() {
        assert((front + s)[front.len() + from] == s[from]);
        if !is_separator(s[from]) {
            lemma_next_separator_behind(front, s, from + 1);
        }
    }
}

/// A list is read alike on its own and behind another text.
proof fn lemma_cores_behind(front: Seq<char>, s: Seq<char>, from: int)
    requires
        0 <= from <= s.len(),
    ensures
        cores_from(front + s, front.len() + from) == cores_from(s, from),
    decreases s.len() - from,
{
    let end = next_separator(s, from);
    lemma_next_separator_behind(front, s, from);
    assert((front + s).subrange(front.len() + from, front.len() + end) =~= s.subrange(from, end));
    if end < s.len() {
        lemma_cores_behind(front, s, end + 1);
    }
}

/// The separator that follows a text ends its last entry.
proof fn lemma_next_separator_before(a: Seq<char>, sep: char, b: Seq<char>, from: int)
    requires
        is_separator(sep),
        0 <= from <= a.len(),
    ensures
        next_separator(a + seq![sep] + b, from) == next_separator(a, from),
        from <= next_separator(a, from) <= a.len(),
    decreases a.len() - from,
{
    let all = a + seq![sep] + b;
    if from < a.len() {
        assert(all[from] == a[from]);
        if !is_separator(a[from]) {
            lemma_next_separator_before(a, sep, b, from + 1);
        }
    } else {
        assert(all[from] == sep);
    }
}

proof fn lemma_cores_join(a: Seq<char>, sep: char, b: Seq<char>, from: int)
    requires
        is_separator(sep),
        0 <= from <= a.len(),
    ensures
        cores_from(a + seq![sep] + b, from) == cores_from(a, from) + cores_from(b, 0),
    decreases a.len() - from,
{
    let all = a + seq![sep] + b;
    let end = next_separator(a, from);
    lemma_next_separator_before(a, sep, b, from);
    assert(all.subrange(from, end) =~= a.subrange(from, end));
    let here = unsigned(trim(a.subrange(from, end)), usize::MAX as nat);
    if end < a.len() {
        lemma_cores_join(a, sep, b, end + 1);
    } else {
        assert(all =~= (a + seq![sep]) + b);
        lemma_cores_behind(a + seq![sep], b, 0);
    }
    assert(cores_from(all, from) =~= cores_from(a, from) + cores_from(b, 0));
}

/// Two lists with a separator between them are read as one after the other.
pub proof fn law_core_lists_join(a: Seq<char>, sep: char, b: Seq<char>)
    requires
        is_separator(sep),
    ensures
        cores_from(a + seq![sep] + b, 0) == cores_from(a, 0) + cores_from(b, 0),
{
    lemma_cores_join(a, sep, b, 0);
}

/// The core number that a text denotes, white space around it aside.
#[must_use]
pub fn parse_core(s: &str) -> (core: Option<usize>)
    ensures
        match core {
            Some(n) => unsigned(trim(s@), usize::MAX as nat) == Some(n as nat),
            None => unsigned(trim(s@), usize::MAX as nat) is None,
        },
{
    let chars = chars_of(s);
    let (a, b) = trim_range(chars.as_slice(), 0, chars.len());
    assert(chars@.subrange(0, chars@.len() as int) =~= chars@);
    match parse_unsigned(chars.as_slice(), a, b, usize::MAX as u64) {
        Some(n) => Some(n as usize),
        None => None,
    }
}

/// The value of the first core-list flag in `args` that has one.
pub open spec fn flagged(args: Seq<String>, from: int) -> Option<Seq<char>>
    decreases args.len() - from,
{
    if from >= args.len() {
        None
    } else if args[from]@ == "--reader-cores"@ {
        if from + 1 < args.len() {
            Some(args[from + 1]@)
        } else {
            None
        }
    } else {
        flagged(args, from + 1)
    }
}

/// The cores for readers: those of the command line flag, else those of the
/// environment's list, else none.
#[must_use]
pub fn reader_cores(args: &[String], listed: Option<&str>) -> (cores: Vec<usize>)
    ensures
        cores@ == (match flagged(args@, 0) {
            Some(list) => cores_from(list, 0),
            None => match listed {
                Some(list) => cores_from(list@, 0),
                None => Seq::empty(),
            },
        }),
{
    let mut i: usize = 0;
    while i < args.len()
        invariant
            i <= args@.len(),
            flagged(args@, i as int) == flagged(args@, 0),
        decreases args@.len() - i,
    {
        if same_text(args[i].as_str(), "--reader-cores") {
            if i + 1 < args.len() {
                return parse_core_list(args[i + 1].as_str());
            }
        }
        i += 1;
    }
    match listed {
        Some(list) => parse_core_list(list),
        None => Vec::new(),
    }
}

/// A core number that stands alone is read as itself.
pub proof fn law_a_core_number_is_read(n: nat)
    requires
        n <= usize::MAX,
    ensures
        cores_from(decimal(n), 0) == seq![n as usize],
{
    let s = decimal(n);
    law_numbers_read_back(n, usize::MAX as nat);
    law_trimming_takes_white_space_only(s);
    assert forall|i: int| 0 <= i < s.len() implies !is_separator(#[trigger] s[i]) && !is_space(s[i]) by {
        assert('0' <= s[i] <= '9');
    }
    lemma_no_separator(s, 0);
    let (a, b) = choose|a: int, b: int|
        0 <= a <= b <= s.len() && trim(s) == #[trigger] s.subrange(a, b) && (forall|i: int|
            0 <= i < a || b <= i < s.len() ==> is_space(#[trigger] s[i]));
    if a > 0 {
        assert(is_space(s[0]));
    }
    if b < s.len() {
        assert(is_space(s[b]));
    }
    assert(s.subrange(a, b) =~= s);
    assert(s.subrange(0, s.len() as int) =~= s);
    assert(seq![n as usize] + Seq::<usize>::empty() =~= seq![n as usize]);
}

proof fn lemma_no_separator(s: Seq<char>, from: int)
    requires
        0 <= from <= s.len(),
        forall|i: int| 0 <= i < s.len() ==> !is_separator(#[trigger] s[i]),
    ensures
        next_separator(s, from) == s.len(),
    decreases s.len() - from,
{
    if from < s.len() {
        lemma_no_separator(s, from + 1);
    }
}

/// The cores of the command line are those behind the first flag for them.
pub proof fn law_the_first_flag_counts(args: Seq<String>, from: int, i: int)
    requires
        0 <= from <= i <= args.len(),
        forall|j: int| from <= j < i ==> (#[trigger] args[j])@ != "--reader-cores"@,
    ensures
        i + 1 < args.len() && args[i]@ == "--reader-cores"@ ==> flagged(args, from) == Some(
            args[i + 1]@,
        ),
        i == args.len() ==> flagged(args, from) is None,
    decreases i - from,
{
    if from < i {
        assert(args[from]@ != "--reader-cores"@);
        law_the_first_flag_counts(args, from + 1, i);
    }
}

} // verus!
