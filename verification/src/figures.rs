//! The tables that figures are drawn from: comma-separated rows, percentile
//! listings, and the choice of the cells of a figure. The cells stay texts; reading
//! the numbers in them is left to the caller.

use crate::text::{
    chars_of, copy_text, is_space, joined, law_joining_puts_the_separator_between, same_text,
    space, text_of, texts, trim, trim_range,
};
use vstd::prelude::*;
use vstd::slice::slice_subrange;

verus! {

/// The place of the first `c` from `from` on, or the end.
pub open spec fn next_of(s: Seq<char>, c: char, from: int) -> int
    decreases s.len() - from,
{
    if from >= s.len() {
        s.len() as int
    } else if s[from] == c {
        from
    } else {
        next_of(s, c, from + 1)
    }
}

/// The place of the first `c` from `from` on, or the end.
fn find_from(s: &[char], c: char, from: usize) -> (k: usize)
    requires
        from <= s@.len(),
    ensures
        k == next_of(s@, c, from as int),
        from <= k <= s@.len(),
        k < s@.len() ==> s@[k as int] == c,
{
    let n: usize = s.len();
    let mut k: usize = from;
    while k < n && s[k] != c
        invariant
            from <= k <= n == s@.len(),
            next_of(s@, c, k as int) == next_of(s@, c, from as int),
        decreases n - k,
    {
        k += 1;
    }
    k
}

proof fn lemma_next_of(s: Seq<char>, c: char, from: int)
    requires
        0 <= from <= s.len(),
    ensures
        from <= next_of(s, c, from) <= s.len(),
    decreases s.len() - from,
{
    if from < s.len() && s[from] != c {
        lemma_next_of(s, c, from + 1);
    }
}

/// A line without the carriage return before its end.
pub open spec fn without_return(s: Seq<char>) -> Seq<char> {
    if s.len() > 0 && s.last() == '\r' {
        s.drop_last()
    } else {
        s
    }
}

/// The lines of a text from `from` on. The last one need not end in a line feed.
pub open spec fn lines_from(s: Seq<char>, from: int) -> Seq<Seq<char>>
    decreases s.len() - from,
    when 0 <= from
    via lines_decrease
{
    if from >= s.len() {
        Seq::empty()
    } else {
        let k = next_of(s, '\n', from);
        if k >= s.len() {
            seq![s.skip(from)]
        } else {
            seq![without_return(s.subrange(from, k))] + lines_from(s, k + 1)
        }
    }
}

#[via_fn]
proof fn lines_decrease(s: Seq<char>, from: int) {
    if from < s.len() {
        lemma_next_of(s, '\n', from);
    }
}

/// The lines of a text.
pub fn lines(text: &str) -> (r: Vec<String>)
    ensures
        texts(r@) == lines_from(text@, 0),
{
    let v: Vec<char> = chars_of(text);
    let s: &[char] = v.as_slice();
    let n: usize = s.len();
    let mut r: Vec<String> = Vec::new();
    let mut from: usize = 0;
    assert(texts(r@) + lines_from(text@, 0) =~= lines_from(text@, 0));
    while from < n
        invariant
            s@ == text@,
            n == s@.len(),
            from <= n,
            texts(r@) + lines_from(text@, from as int) == lines_from(text@, 0),
        decreases n - from,
    {
        let ghost before = texts(r@);
        let k: usize = find_from(s, '\n', from);
        if k == n {
            let line = slice_subrange(s, from, n);
            assert(line@ =~= text@.skip(from as int));
            r.push(text_of(line));
            proof {
                assert(texts(r@) =~= before + seq![text@.skip(from as int)]);
                assert(lines_from(text@, n as int) =~= Seq::empty());
                assert(texts(r@) + lines_from(text@, n as int) =~= texts(r@));
            }
            from = n;
        } else {
            let ghost whole = text@.subrange(from as int, k as int);
            let end: usize = if k > from && s[k - 1] == '\r' {
                k - 1
            } else {
                k
            };
            let line = slice_subrange(s, from, end);
            assert(line@ =~= without_return(whole));
            r.push(text_of(line));
            proof {
                assert(texts(r@) =~= before + seq![without_return(whole)]);
                assert(texts(r@) + lines_from(text@, k + 1) =~= before + (seq![
                    without_return(whole),
                ] + lines_from(text@, k + 1)));
            }
            from = k + 1;
        }
    }
    proof {
        assert(lines_from(text@, from as int) =~= Seq::empty());
        assert(texts(r@) + lines_from(text@, from as int) =~= texts(r@));
    }
    r
}

/// The cells of a row from `from` on, with commas between them.
pub open spec fn cells_from(s: Seq<char>, from: int) -> Seq<Seq<char>>
    decreases s.len() - from,
    when 0 <= from
    via cells_decrease
{
    let k = next_of(s, ',', from);
    if from > s.len() || k >= s.len() {
        seq![s.skip(from)]
    } else {
        seq![s.subrange(from, k)] + cells_from(s, k + 1)
    }
}

#[via_fn]
proof fn cells_decrease(s: Seq<char>, from: int) {
    if from <= s.len() {
        lemma_next_of(s, ',', from);
    }
}

/// The cells of a row.
pub fn cells(row: &str) -> (r: Vec<String>)
    ensures
        texts(r@) == cells_from(row@, 0),
{
    let v: Vec<char> = chars_of(row);
    let s: &[char] = v.as_slice();
    let n: usize = s.len();
    let mut r: Vec<String> = Vec::new();
    let mut from: usize = 0;
    assert(texts(r@) + cells_from(row@, 0) =~= cells_from(row@, 0));
    loop
        invariant_except_break
            texts(r@) + cells_from(row@, from as int) == cells_from(row@, 0),
        invariant
            s@ == row@,
            n == s@.len(),
            from <= n,
        ensures
            texts(r@) == cells_from(row@, 0),
        decreases n - from,
    {
        let ghost before = texts(r@);
        let k: usize = find_from(s, ',', from);
        let cell = slice_subrange(s, from, k);
        r.push(text_of(cell));
        if k == n {
            proof {
                assert(cell@ =~= row@.skip(from as int));
                assert(texts(r@) =~= before + seq![row@.skip(from as int)]);
            }
            break;
        }
        proof {
            assert(cell@ =~= row@.subrange(from as int, k as int));
            assert(texts(r@) =~= before + seq![cell@]);
            assert(texts(r@) + cells_from(row@, k + 1) =~= before + (seq![cell@] + cells_from(
                row@,
                k + 1,
            )));
        }
        from = k + 1;
    }
    r
}

/// What the rows of a table say.
pub open spec fn row_texts(rows: Seq<Vec<String>>) -> Seq<Seq<Seq<char>>> {
    rows.map_values(|r: Vec<String>| texts(r@))
}

/// The rows among the first `n` lines of a table: all but the first line and those
/// that are blank.
pub open spec fn rows_in(lines: Seq<Seq<char>>, n: int) -> Seq<Seq<Seq<char>>>
    decreases n,
{
    if n <= 1 {
        Seq::empty()
    } else if trim(lines[n - 1]).len() == 0 {
        rows_in(lines, n - 1)
    } else {
        rows_in(lines, n - 1).push(cells_from(lines[n - 1], 0))
    }
}

/// Whether a line holds nothing but white space.
fn blank(line: &str) -> (b: bool)
    ensures
        b == (trim(line@).len() == 0),
{
    let v: Vec<char> = chars_of(line);
    let n: usize = v.len();
    let (a, b) = trim_range(v.as_slice(), 0, n);
    assert(v@.subrange(0, n as int) =~= line@);
    a == b
}

/// The rows of a table, without its heading.
pub fn load_rows(text: &str) -> (r: Vec<Vec<String>>)
    ensures
        row_texts(r@) == rows_in(lines_from(text@, 0), lines_from(text@, 0).len() as int),
{
    let all = lines(text);
    let ghost want = lines_from(text@, 0);
    assert(want.len() == all@.len());
    let mut r: Vec<Vec<String>> = Vec::new();
    assert(row_texts(r@) =~= Seq::empty());
    let mut i: usize = 0;
    while i < all.len()
        invariant
            i <= all@.len(),
            want == texts(all@),
            row_texts(r@) == rows_in(want, i as int),
        decreases all@.len() - i,
    {
        assert(want[i as int] == all@[i as int]@);
        if i > 0 && !blank(all[i].as_str()) {
            let ghost before = r@;
            let c = cells(all[i].as_str());
            r.push(c);
            assert(row_texts(r@) =~= row_texts(before).push(texts(c@)));
        }
        i += 1;
    }
    r
}

/// Whether a row is longer than `col` and has the wanted texts in the wanted places.
pub open spec fn row_matches(
    row: Seq<Seq<char>>,
    wants: Seq<(usize, Seq<char>)>,
    col: int,
) -> bool {
    row.len() > col && forall|i: int|
        #![trigger wants[i]]
        0 <= i < wants.len() ==> wants[i].0 < row.len() && row[wants[i].0 as int] == wants[i].1
}

/// What some wishes say.
pub open spec fn wish_texts(wants: Seq<(usize, &str)>) -> Seq<(usize, Seq<char>)> {
    wants.map_values(|w: (usize, &str)| (w.0, w.1@))
}

/// Whether a row is longer than `col` and has the wanted texts in the wanted places.
fn matches_row(row: &Vec<String>, wants: &[(usize, &str)], col: usize) -> (b: bool)
    ensures
        b == row_matches(texts(row@), wish_texts(wants@), col as int),
{
    if row.len() <= col {
        return false;
    }
    let ghost w = wish_texts(wants@);
    let mut i: usize = 0;
    while i < wants.len()
        invariant
            i <= wants@.len(),
            w == wish_texts(wants@),
            row@.len() > col,
            forall|k: int|
                #![trigger w[k]]
                0 <= k < i ==> w[k].0 < row@.len() && texts(row@)[w[k].0 as int] == w[k].1,
        decreases wants@.len() - i,
    {
        let (at, text) = wants[i];
        assert(w[i as int] == (at, text@));
        if at >= row.len() {
            return false;
        }
        assert(texts(row@)[at as int] == row@[at as int]@);
        if !same_text(row[at].as_str(), text) {
            return false;
        }
        i += 1;
    }
    true
}

/// The first of the rows from `from` on that matches.
pub open spec fn first_match(
    rows: Seq<Seq<Seq<char>>>,
    wants: Seq<(usize, Seq<char>)>,
    col: int,
    from: int,
) -> Option<Seq<char>>
    decreases rows.len() - from,
{
    if from >= rows.len() {
        None
    } else if row_matches(rows[from], wants, col) {
        Some(rows[from][col])
    } else {
        first_match(rows, wants, col, from + 1)
    }
}

/// The cell at `col` of the first row that matches.
pub fn find_cell(rows: &[Vec<String>], wants: &[(usize, &str)], col: usize) -> (r: Option<String>)
    ensures
        match r {
            Some(s) => first_match(row_texts(rows@), wish_texts(wants@), col as int, 0) == Some(s@),
            None => first_match(row_texts(rows@), wish_texts(wants@), col as int, 0) is None,
        },
{
    let ghost t = row_texts(rows@);
    let mut i: usize = 0;
    while i < rows.len()
        invariant
            i <= rows@.len(),
            t == row_texts(rows@),
            first_match(t, wish_texts(wants@), col as int, 0) == first_match(
                t,
                wish_texts(wants@),
                col as int,
                i as int,
            ),
        decreases rows@.len() - i,
    {
        assert(t[i as int] == texts(rows@[i as int]@));
        if matches_row(&rows[i], wants, col) {
            assert(t[i as int][col as int] == rows@[i as int]@[col as int]@);
            return Some(copy_text(rows[i][col].as_str()));
        }
        i += 1;
    }
    None
}

/// The points of the first `n` rows: of those that match, the cells at `x` and `y`.
pub open spec fn points_in(
    rows: Seq<Seq<Seq<char>>>,
    wants: Seq<(usize, Seq<char>)>,
    x: int,
    y: int,
    n: int,
) -> Seq<(Seq<char>, Seq<char>)>
    decreases n,
{
    let col = if x > y {
        x
    } else {
        y
    };
    if n <= 0 {
        Seq::empty()
    } else if row_matches(rows[n - 1], wants, col) {
        points_in(rows, wants, x, y, n - 1).push((rows[n - 1][x], rows[n - 1][y]))
    } else {
        points_in(rows, wants, x, y, n - 1)
    }
}

/// What some points say.
pub open spec fn point_texts(v: Seq<(String, String)>) -> Seq<(Seq<char>, Seq<char>)> {
    v.map_values(|p: (String, String)| (p.0@, p.1@))
}

/// The points of a series: of the rows that match, the cells at `x` and `y`.
pub fn select_points(
    rows: &[Vec<String>],
    wants: &[(usize, &str)],
    x: usize,
    y: usize,
) -> (r: Vec<(String, String)>)
    ensures
        point_texts(r@) == points_in(
            row_texts(rows@),
            wish_texts(wants@),
            x as int,
            y as int,
            rows@.len() as int,
        ),
{
    let ghost t = row_texts(rows@);
    let col: usize = if x > y {
        x
    } else {
        y
    };
    let mut r: Vec<(String, String)> = Vec::new();
    assert(point_texts(r@) =~= Seq::empty());
    let mut i: usize = 0;
    while i < rows.len()
        invariant
            i <= rows@.len(),
            t == row_texts(rows@),
            col == (if x > y {
                x
            } else {
                y
            }),
            point_texts(r@) == points_in(t, wish_texts(wants@), x as int, y as int, i as int),
        decreases rows@.len() - i,
    {
        assert(t[i as int] == texts(rows@[i as int]@));
        if matches_row(&rows[i], wants, col) {
            let ghost before = r@;
            assert(t[i as int][x as int] == rows@[i as int]@[x as int]@);
            assert(t[i as int][y as int] == rows@[i as int]@[y as int]@);
            let p = (copy_text(rows[i][x].as_str()), copy_text(rows[i][y].as_str()));
            r.push(p);
            assert(point_texts(r@) =~= point_texts(before).push((p.0@, p.1@)));
        }
        i += 1;
    }
    r
}

/// The last of the greatest numbers.
pub open spec fn is_last_peak(v: Seq<u64>, k: int) -> bool {
    &&& 0 <= k < v.len()
    &&& forall|i: int| 0 <= i < v.len() ==> #[trigger] v[i] <= v[k]
    &&& forall|i: int| k < i < v.len() ==> #[trigger] v[i] < v[k]
}

/// The place of the last of the greatest numbers.
pub fn peak(v: &[u64]) -> (r: Option<usize>)
    ensures
        match r {
            Some(k) => is_last_peak(v@, k as int),
            None => v@.len() == 0,
        },
{
    if v.len() == 0 {
        return None;
    }
    let mut k: usize = 0;
    let mut i: usize = 1;
    while i < v.len()
        invariant
            1 <= i <= v@.len(),
            k < i,
            forall|j: int| 0 <= j < i ==> #[trigger] v@[j] <= v@[k as int],
            forall|j: int| k < j < i ==> #[trigger] v@[j] < v@[k as int],
        decreases v@.len() - i,
    {
        if v[i] >= v[k] {
            k = i;
        }
        i += 1;
    }
    Some(k)
}

/// The colour of a book's line, by the book's name.
pub open spec fn book_color(name: Seq<char>) -> (u8, u8, u8) {
    if name == "btree"@ {
        (200, 30, 30)
    } else if name == "sorted"@ {
        (30, 80, 200)
    } else if name == "rev"@ {
        (30, 150, 60)
    } else if name == "flat"@ {
        (220, 130, 0)
    } else {
        (0, 0, 0)
    }
}

/// The colour of a book's line.
pub fn impl_color(name: &str) -> (c: (u8, u8, u8))
    ensures
        c == book_color(name@),
{
    if same_text(name, "btree") {
        (200, 30, 30)
    } else if same_text(name, "sorted") {
        (30, 80, 200)
    } else if same_text(name, "rev") {
        (30, 150, 60)
    } else if same_text(name, "flat") {
        (220, 130, 0)
    } else {
        (0, 0, 0)
    }
}

/// The colour of the line for a number of consumers.
pub fn k_color(k: u32) -> (c: (u8, u8, u8))
    ensures
        c == (if k == 1 {
            (200u8, 30u8, 30u8)
        } else if k == 2 {
            (30u8, 80u8, 200u8)
        } else if k == 4 {
            (30u8, 150u8, 60u8)
        } else if k == 8 {
            (220u8, 130u8, 0u8)
        } else {
            (0u8, 0u8, 0u8)
        }),
{
    match k {
        1 => (200, 30, 30),
        2 => (30, 80, 200),
        4 => (30, 150, 60),
        8 => (220, 130, 0),
        _ => (0, 0, 0),
    }
}

/// How many bytes the unit of a size stands for, by its letter.
pub open spec fn unit_of(c: char) -> Option<u64> {
    if c == 'K' {
        Some(1024)
    } else if c == 'M' {
        Some(1_048_576)
    } else if c == 'G' {
        Some(1_073_741_824)
    } else {
        None
    }
}

/// The number of a size, as a text, and the unit that it counts.
pub open spec fn size_parts(s: Seq<char>) -> (Seq<char>, u64) {
    let t = trim(s);
    if t.len() > 0 && unit_of(t.last()) is Some {
        (trim(t.drop_last()), unit_of(t.last())->Some_0)
    } else {
        (t, 1)
    }
}

/// How many bytes the unit of a size stands for.
fn read_unit(c: char) -> (u: Option<u64>)
    ensures
        u == unit_of(c),
{
    if c == 'K' {
        Some(1024)
    } else if c == 'M' {
        Some(1_048_576)
    } else if c == 'G' {
        Some(1_073_741_824)
    } else {
        None
    }
}

/// The number of a size such as a cache's, as a text, and the unit that it counts.
pub fn parse_cache_size(s: &str) -> (r: (String, u64))
    ensures
        (r.0@, r.1) == size_parts(s@),
{
    let v: Vec<char> = chars_of(s);
    let n: usize = v.len();
    let (lo, hi) = trim_range(v.as_slice(), 0, n);
    let ghost t = trim(s@);
    proof {
        assert(v@.subrange(0, n as int) =~= s@);
        assert(v@.subrange(lo as int, hi as int) == t);
    }
    if lo < hi {
        assert(t.last() == v@[hi - 1]);
        match read_unit(v[hi - 1]) {
            Some(unit) => {
                let (a, b) = trim_range(v.as_slice(), lo, hi - 1);
                assert(v@.subrange(lo as int, hi - 1) =~= t.drop_last());
                let part = slice_subrange(v.as_slice(), a, b);
                return (text_of(part), unit);
            },
            None => {},
        }
    }
    let whole = slice_subrange(v.as_slice(), lo, hi);
    (text_of(whole), 1)
}

/// A level of the cache.
#[derive(Clone, Copy, PartialEq, Eq, Structural, Debug)]
pub enum CacheLevel {
    /// The first level, for data.
    L1d,
    /// The second level.
    L2,
    /// The last level.
    Llc,
}

/// The level of a cache, by its number and its kind.
pub open spec fn level_of(level: Seq<char>, kind: Seq<char>) -> Option<CacheLevel> {
    if level == "1"@ && kind == "Data"@ {
        Some(CacheLevel::L1d)
    } else if level == "2"@ {
        Some(CacheLevel::L2)
    } else if level == "3"@ {
        Some(CacheLevel::Llc)
    } else {
        None
    }
}

/// The level of a cache, by its number and its kind.
pub fn cache_level(level: &str, kind: &str) -> (r: Option<CacheLevel>)
    ensures
        r == level_of(level@, kind@),
{
    if same_text(level, "1") && same_text(kind, "Data") {
        Some(CacheLevel::L1d)
    } else if same_text(level, "2") {
        Some(CacheLevel::L2)
    } else if same_text(level, "3") {
        Some(CacheLevel::Llc)
    } else {
        None
    }
}

/// The end of the word that begins at `from`.
pub open spec fn word_end(s: Seq<char>, from: int) -> int
    decreases s.len() - from,
{
    if from >= s.len() || is_space(s[from]) {
        from
    } else {
        word_end(s, from + 1)
    }
}

proof fn lemma_word_end(s: Seq<char>, from: int)
    requires
        0 <= from <= s.len(),
    ensures
        from <= word_end(s, from) <= s.len(),
    decreases s.len() - from,
{
    if from < s.len() && !is_space(s[from]) {
        lemma_word_end(s, from + 1);
    }
}

/// The words of a text from `from` on: what stands between white space.
pub open spec fn words_from(s: Seq<char>, from: int) -> Seq<Seq<char>>
    decreases s.len() - from,
    when 0 <= from
    via words_decrease
{
    if from >= s.len() {
        Seq::empty()
    } else if is_space(s[from]) {
        words_from(s, from + 1)
    } else {
        seq![s.subrange(from, word_end(s, from))] + words_from(s, word_end(s, from))
    }
}

#[via_fn]
proof fn words_decrease(s: Seq<char>, from: int) {
    if from < s.len() && !is_space(s[from]) {
        lemma_word_end(s, from + 1);
    }
}

/// The words of a text.
pub fn words(text: &str) -> (r: Vec<String>)
    ensures
        texts(r@) == words_from(text@, 0),
{
    let v: Vec<char> = chars_of(text);
    let s: &[char] = v.as_slice();
    let n: usize = s.len();
    let mut r: Vec<String> = Vec::new();
    let mut from: usize = 0;
    assert(texts(r@) + words_from(text@, 0) =~= words_from(text@, 0));
    while from < n
        invariant
            s@ == text@,
            n == s@.len(),
            from <= n,
            texts(r@) + words_from(text@, from as int) == words_from(text@, 0),
        decreases n - from,
    {
        if space(s[from]) {
            from += 1;
        } else {
            let ghost before = texts(r@);
            let mut end: usize = from + 1;
            while end < n && !space(s[end])
                invariant
                    s@ == text@,
                    n == s@.len(),
                    from < end <= n,
                    word_end(text@, from as int) == word_end(text@, end as int),
                decreases n - end,
            {
                end += 1;
            }
            let word = slice_subrange(s, from, end);
            r.push(text_of(word));
            proof {
                assert(word@ =~= text@.subrange(from as int, end as int));
                assert(texts(r@) =~= before + seq![word@]);
                assert(texts(r@) + words_from(text@, end as int) =~= before + (seq![word@]
                    + words_from(text@, end as int)));
            }
            from = end;
        }
    }
    assert(texts(r@) + words_from(text@, from as int) =~= texts(r@));
    r
}

/// The point of a line of a percentile listing, its fourth word and its first: none
/// for a comment and for a line of fewer words.
pub open spec fn listing_point(line: Seq<char>) -> Option<(Seq<char>, Seq<char>)> {
    let w = words_from(line, 0);
    if w.len() < 4 || w[0][0] == '#' {
        None
    } else {
        Some((w[3], w[0]))
    }
}

/// The points of the first `n` lines of a percentile listing.
pub open spec fn listing_points(lines: Seq<Seq<char>>, n: int) -> Seq<(Seq<char>, Seq<char>)>
    decreases n,
{
    if n <= 0 {
        Seq::empty()
    } else {
        match listing_point(lines[n - 1]) {
            Some(p) => listing_points(lines, n - 1).push(p),
            None => listing_points(lines, n - 1),
        }
    }
}

/// Words are not empty.
proof fn lemma_words(s: Seq<char>, from: int)
    requires
        0 <= from <= s.len(),
    ensures
        forall|i: int|
            0 <= i < words_from(s, from).len() ==> (#[trigger] words_from(s, from)[i]).len() > 0,
    decreases s.len() - from,
{
    if from >= s.len() {
        assert(words_from(s, from).len() == 0);
    } else {
        if is_space(s[from]) {
            lemma_words(s, from + 1);
            assert(words_from(s, from) == words_from(s, from + 1));
        } else {
            lemma_word_end(s, from + 1);
            let end = word_end(s, from);
            let rest = words_from(s, end);
            lemma_words(s, end);
            assert forall|i: int| 0 <= i < words_from(s, from).len() implies (
            #[trigger] words_from(s, from)[i]).len() > 0 by {
                if i > 0 {
                    assert(words_from(s, from)[i] == rest[i - 1]);
                } else {
                    assert(words_from(s, from)[0] == s.subrange(from, end));
                }
            }
        }
    }
}

/// The points of a percentile listing.
pub fn parse_hgrm(text: &str) -> (r: Vec<(String, String)>)
    ensures
        point_texts(r@) == listing_points(
            lines_from(text@, 0),
            lines_from(text@, 0).len() as int,
        ),
{
    let all = lines(text);
    let ghost want = lines_from(text@, 0);
    assert(want.len() == all@.len());
    let mut r: Vec<(String, String)> = Vec::new();
    assert(point_texts(r@) =~= Seq::empty());
    let mut i: usize = 0;
    while i < all.len()
        invariant
            i <= all@.len(),
            want == texts(all@),
            point_texts(r@) == listing_points(want, i as int),
        decreases all@.len() - i,
    {
        assert(want[i as int] == all@[i as int]@);
        let w = words(all[i].as_str());
        proof {
            lemma_words(want[i as int], 0);
            assert(texts(w@).len() == w@.len());
        }
        if w.len() >= 4 {
            assert(texts(w@)[0] == w@[0]@);
            assert(texts(w@)[3] == w@[3]@);
            if w[0].as_str().get_char(0) != '#' {
                let ghost before = r@;
                let p = (copy_text(w[3].as_str()), copy_text(w[0].as_str()));
                r.push(p);
                assert(point_texts(r@) =~= point_texts(before).push((p.0@, p.1@)));
            }
        }
        i += 1;
    }
    r
}

/// The cells of a line are what stands between its commas: joined by commas they are the
/// line, and none of them holds a comma.
pub proof fn law_cells_make_up_the_line(s: Seq<char>, from: int, i: int, j: int)
    requires
        0 <= from <= s.len(),
    ensures
        cells_from(s, from).len() > 0,
        joined(cells_from(s, from), seq![',']) == s.skip(from),
        0 <= i < cells_from(s, from).len() && 0 <= j < cells_from(s, from)[i].len()
            ==> cells_from(s, from)[i][j] != ',',
    decreases s.len() - from,
{
    lemma_next_of(s, ',', from);
    lemma_before_next(s, ',', from);
    let k = next_of(s, ',', from);
    let sep = seq![','];
    if k >= s.len() {
        assert(cells_from(s, from) =~= seq![s.skip(from)]);
    } else {
        law_cells_make_up_the_line(s, k + 1, i - 1, j);
        let first = s.subrange(from, k);
        let rest = cells_from(s, k + 1);
        assert(cells_from(s, from) == seq![first] + rest);
        law_joining_puts_the_separator_between(seq![first], rest, sep);
        assert(joined(seq![first], sep) == first);
        assert(first + sep + s.skip(k + 1) =~= s.skip(from));
        if 0 < i < cells_from(s, from).len() {
            assert((seq![first] + rest)[i] == rest[i - 1]);
        }
    }
}

proof fn lemma_before_next(s: Seq<char>, c: char, from: int)
    requires
        0 <= from <= s.len(),
    ensures
        from <= next_of(s, c, from) <= s.len(),
        forall|i: int| from <= i < next_of(s, c, from) ==> #[trigger] s[i] != c,
        next_of(s, c, from) < s.len() ==> s[next_of(s, c, from)] == c,
    decreases s.len() - from,
{
    if from < s.len() && s[from] != c {
        lemma_before_next(s, c, from + 1);
    }
}

/// A line feed ends a line, and a carriage return before it is left out: a text that begins
/// with a line gives that line and then the lines of the rest.
pub proof fn law_lines_end_in_line_feeds(line: Seq<char>, rest: Seq<char>)
    requires
        forall|i: int| 0 <= i < line.len() ==> #[trigger] line[i] != '\n',
    ensures
        ({
            let s = line + seq!['\n'] + rest;
            &&& lines_from(s, 0) == seq![without_return(line)] + lines_from(s, line.len() as int + 1)
            &&& line.len() > 0 ==> lines_from(line, 0) == seq![line]
            &&& lines_from(s, s.len() as int) == Seq::<Seq<char>>::empty()
        }),
        line.len() > 0 && line.last() == '\r' ==> without_return(line) == line.drop_last(),
        line.len() == 0 || line.last() != '\r' ==> without_return(line) == line,
{
    let s = line + seq!['\n'] + rest;
    let n = line.len() as int;
    lemma_before_next(s, '\n', 0);
    let k = next_of(s, '\n', 0);
    assert(s[n] == '\n');
    if k < n {
        assert(s[k] == line[k]);
    }
    assert(k == n);
    assert(s.subrange(0, n) =~= line);
    lemma_before_next(line, '\n', 0);
    assert(line.skip(0) =~= line);
    if next_of(line, '\n', 0) < n {
        assert(line[next_of(line, '\n', 0)] == '\n');
    }
}

/// The rows of a table are its lines but the first and the blank ones, each as its cells,
/// in order.
pub proof fn law_rows_are_the_lines_after_the_first(lines: Seq<Seq<char>>, n: int)
    requires
        1 <= n <= lines.len(),
    ensures
        rows_in(lines, 1) == Seq::<Seq<Seq<char>>>::empty(),
        n < lines.len() && trim(lines[n]).len() > 0 ==> rows_in(lines, n + 1) == rows_in(
            lines,
            n,
        ).push(cells_from(lines[n], 0)),
        n < lines.len() && trim(lines[n]).len() == 0 ==> rows_in(lines, n + 1) == rows_in(lines, n),
{
}

/// A cell is looked up in the first row that has the wanted texts in the wanted places and
/// is long enough.
pub proof fn law_the_first_matching_row_counts(
    rows: Seq<Seq<Seq<char>>>,
    wants: Seq<(usize, Seq<char>)>,
    col: int,
    from: int,
    i: int,
)
    requires
        0 <= from <= i <= rows.len(),
        forall|j: int| from <= j < i ==> !row_matches(#[trigger] rows[j], wants, col),
    ensures
        i < rows.len() && rows[i].len() > col && (forall|k: int|
            0 <= k < wants.len() ==> (#[trigger] wants[k]).0 < rows[i].len() && rows[i][wants[k].0 as int]
                == wants[k].1) ==> first_match(rows, wants, col, from) == Some(rows[i][col]),
        i == rows.len() ==> first_match(rows, wants, col, from) is None,
    decreases i - from,
{
    if from < i {
        assert(!row_matches(rows[from], wants, col));
        law_the_first_matching_row_counts(rows, wants, col, from + 1, i);
    }
}

/// The points of a series are those of the rows that match, in order: one more row that
/// matches adds the pair of its two cells, and one that does not adds nothing.
pub proof fn law_points_are_those_of_the_matching_rows(
    rows: Seq<Seq<Seq<char>>>,
    wants: Seq<(usize, Seq<char>)>,
    x: int,
    y: int,
    n: int,
)
    requires
        0 <= n < rows.len(),
        0 <= x,
        0 <= y,
    ensures
        ({
            let row = rows[n];
            let matches = row.len() > x && row.len() > y && (forall|k: int|
                0 <= k < wants.len() ==> (#[trigger] wants[k]).0 < row.len() && row[wants[k].0 as int]
                    == wants[k].1);
            &&& matches ==> points_in(rows, wants, x, y, n + 1) == points_in(
                rows,
                wants,
                x,
                y,
                n,
            ).push((row[x], row[y]))
            &&& !matches ==> points_in(rows, wants, x, y, n + 1) == points_in(rows, wants, x, y, n)
            &&& points_in(rows, wants, x, y, 0) == Seq::<(Seq<char>, Seq<char>)>::empty()
        }),
{
}

/// A size is a number and a unit: behind a K, an M or a G it counts two to the tenth, the
/// twentieth or the thirtieth bytes, and without a letter single bytes.
pub proof fn law_sizes_count_in_units(s: Seq<char>)
    requires
        s.len() > 0,
        !is_space(s[0]),
        !is_space(s.last()),
    ensures
        s.last() == 'K' ==> size_parts(s) == (trim(s.drop_last()), 1_024u64),
        s.last() == 'M' ==> size_parts(s) == (trim(s.drop_last()), 1_048_576u64),
        s.last() == 'G' ==> size_parts(s) == (trim(s.drop_last()), 1_073_741_824u64),
        s.last() != 'K' && s.last() != 'M' && s.last() != 'G' ==> size_parts(s) == (s, 1u64),
{
    assert(trim(s) == s);
}

/// A line of a percentile listing gives the fourth word as the place and the first as the
/// value; a comment and a line with fewer words give nothing.
pub proof fn law_listings_give_place_and_value(line: Seq<char>)
    ensures
        ({
            let w = words_from(line, 0);
            &&& w.len() >= 4 && w[0][0] != '#' ==> listing_point(line) == Some((w[3], w[0]))
            &&& w.len() < 4 || w[0][0] == '#' ==> listing_point(line) is None
        }),
{
}

/// The words of a line are its longest runs without white space: white space in front is
/// passed over, and a word ends where white space follows or the line does.
pub proof fn law_words_are_runs(word: Seq<char>, space: Seq<char>, rest: Seq<char>)
    requires
        word.len() > 0,
        space.len() > 0,
        forall|i: int| 0 <= i < word.len() ==> !is_space(#[trigger] word[i]),
        forall|i: int| 0 <= i < space.len() ==> is_space(#[trigger] space[i]),
    ensures
        ({
            let s = word + space + rest;
            &&& words_from(s, 0) == seq![word] + words_from(s, (word.len() + space.len()) as int)
            &&& words_from(word, 0) == seq![word]
            &&& words_from(space, 0) == Seq::<Seq<char>>::empty()
        }),
{
    let s = word + space + rest;
    let n = word.len() as int;
    let m = n + space.len() as int;
    lemma_word_until(s, 0, n);
    assert(s.subrange(0, n) =~= word);
    assert(s[0] == word[0]);
    assert(!is_space(s[0]));
    assert(words_from(s, 0) == seq![word] + words_from(s, n));
    lemma_spaces_passed(s, n, m);
    lemma_word_until(word, 0, n);
    assert(word.subrange(0, n) =~= word);
    assert(!is_space(word[0]));
    assert(words_from(word, n) =~= Seq::<Seq<char>>::empty());
    assert(words_from(word, 0) == seq![word] + words_from(word, n));
    assert(seq![word] + Seq::<Seq<char>>::empty() =~= seq![word]);
    lemma_spaces_passed(space, 0, space.len() as int);
    assert(words_from(space, space.len() as int) =~= Seq::<Seq<char>>::empty());
}

proof fn lemma_word_until(s: Seq<char>, from: int, end: int)
    requires
        0 <= from <= end <= s.len(),
        forall|i: int| from <= i < end ==> !is_space(#[trigger] s[i]),
        end < s.len() ==> is_space(s[end]),
    ensures
        word_end(s, from) == end,
    decreases end - from,
{
    if from < end {
        assert(!is_space(s[from]));
        lemma_word_until(s, from + 1, end);
    }
}

proof fn lemma_spaces_passed(s: Seq<char>, from: int, to: int)
    requires
        0 <= from <= to <= s.len(),
        forall|i: int| from <= i < to ==> is_space(#[trigger] s[i]),
    ensures
        words_from(s, from) == words_from(s, to),
    decreases to - from,
{
    if from < to {
        assert(is_space(s[from]));
        lemma_spaces_passed(s, from + 1, to);
    }
}

} // verus!
