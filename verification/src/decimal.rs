//! Exact conversion of decimal strings to tick counts. No floating point: a price
//! such as `"65000.10"` and a tick such as `"0.01"` are brought to a common power
//! of ten and divided as integers.

use vstd::arithmetic::power::{lemma_pow_increases, lemma_pow_positive, pow};
use vstd::prelude::*;
use vstd::string::StringSliceAdditionalSpecFns;

verus! {

/// Why a string is no tick count.
#[derive(Debug, Clone, Copy, PartialEq, Eq, Structural)]
pub enum ConvError {
    /// It is no decimal number.
    NotDecimal,
    /// It is no whole number of ticks.
    OffTickGrid,
    /// The number is too large.
    Overflow,
}

impl ConvError {
    /// A description of the error for people.
    #[must_use]
    pub fn message(&self) -> (s: &'static str)
        ensures
            s@ == (match *self {
                ConvError::NotDecimal => "not a decimal string"@,
                ConvError::OffTickGrid => "value is not an integer multiple of the tick"@,
                ConvError::Overflow => "tick count does not fit in i64"@,
            }),
    {
        match self {
            ConvError::NotDecimal => "not a decimal string",
            ConvError::OffTickGrid => "value is not an integer multiple of the tick",
            ConvError::Overflow => "tick count does not fit in i64",
        }
    }
}

/// The byte of the decimal point.
pub const POINT: u8 = 46;

/// The byte of the minus sign.
pub const MINUS: u8 = 45;

/// The place of the first point from `from` on, or the end.
pub open spec fn point_from(b: Seq<u8>, from: int) -> int
    decreases b.len() - from,
{
    if from >= b.len() {
        b.len() as int
    } else if b[from] == POINT {
        from
    } else {
        point_from(b, from + 1)
    }
}

/// Whether every byte is a decimal digit.
pub open spec fn is_digits(b: Seq<u8>) -> bool {
    forall|i: int| 0 <= i < b.len() ==> 48 <= #[trigger] b[i] <= 57
}

/// The number that a run of digits denotes.
pub open spec fn digits_value(b: Seq<u8>) -> nat
    decreases b.len(),
{
    if b.len() == 0 {
        0
    } else {
        digits_value(b.drop_last()) * 10 + (b.last() - 48) as nat
    }
}

/// The number of digits behind the point.
pub open spec fn fraction_len(b: Seq<u8>) -> int {
    let k = point_from(b, 0);
    if k < b.len() {
        b.len() - k - 1
    } else {
        0
    }
}

/// The decimal number `b` times ten to the power `d`, if `b` is an optional minus,
/// digits, and an optional point with at most `d` digits behind it, and the outcome
/// and the power fit 128 bits.
pub open spec fn scaled(b: Seq<u8>, d: nat) -> Result<int, ConvError> {
    let negative = b.len() > 0 && b[0] == MINUS;
    let body = if negative { b.skip(1) } else { b };
    let k = point_from(body, 0);
    let whole = body.take(k);
    let frac = if k < body.len() { body.skip(k + 1) } else { Seq::empty() };
    let magnitude = digits_value(whole) * pow(10, d) + digits_value(frac) * pow(
        10,
        (d - frac.len()) as nat,
    );
    if whole.len() == 0 && frac.len() == 0 {
        Err(ConvError::NotDecimal)
    } else if !is_digits(whole) || !is_digits(frac) || frac.len() > d {
        Err(ConvError::NotDecimal)
    } else if pow(10, d) > i128::MAX || magnitude > i128::MAX {
        Err(ConvError::Overflow)
    } else {
        Ok(if negative { -magnitude } else { magnitude })
    }
}

/// The number of ticks that `value` is, where both are decimal strings.
pub open spec fn tick_count(value: Seq<u8>, tick: Seq<u8>) -> Result<int, ConvError> {
    let d = if fraction_len(value) > fraction_len(tick) {
        fraction_len(value)
    } else {
        fraction_len(tick)
    } as nat;
    match scaled(value, d) {
        Err(e) => Err(e),
        Ok(v) => match scaled(tick, d) {
            Err(e) => Err(e),
            Ok(t) => if t == 0 || !divides(t, v) {
                Err(ConvError::OffTickGrid)
            } else if i64::MIN <= quotient(v, t) <= i64::MAX {
                Ok(quotient(v, t))
            } else {
                Err(ConvError::Overflow)
            },
        },
    }
}

/// The magnitude of a number.
pub open spec fn magnitude_of(x: int) -> int {
    if x < 0 {
        -x
    } else {
        x
    }
}

/// Whether `v` is a whole multiple of `t`.
pub open spec fn divides(t: int, v: int) -> bool {
    magnitude_of(v) % magnitude_of(t) == 0
}

/// How many times `t` goes into its multiple `v`.
pub open spec fn quotient(v: int, t: int) -> int {
    if (v < 0) == (t < 0) {
        magnitude_of(v) / magnitude_of(t)
    } else {
        -(magnitude_of(v) / magnitude_of(t))
    }
}

/// The place of the first point from `from` on, or the end.
fn find_point(b: &[u8], from: usize) -> (k: usize)
    requires
        from <= b@.len(),
    ensures
        k == point_from(b@, from as int),
        from <= k <= b@.len(),
        k < b@.len() ==> b@[k as int] == POINT,
        forall|i: int| from <= i < k ==> #[trigger] b@[i] != POINT,
{
    let mut k: usize = from;
    while k < b.len() && b[k] != POINT
        invariant
            from <= k <= b@.len(),
            point_from(b@, k as int) == point_from(b@, from as int),
            forall|i: int| from <= i < k ==> #[trigger] b@[i] != POINT,
        decreases b@.len() - k,
    {
        k += 1;
    }
    k
}

/// The number of bytes behind the first point.
#[must_use]
pub fn frac_digits(s: &str) -> (n: usize)
    ensures
        n == fraction_len(s.spec_bytes()),
{
    let b = s.as_bytes();
    let k: usize = find_point(b, 0);
    if k < b.len() {
        b.len() - k - 1
    } else {
        0
    }
}

/// Ten to the power `d`, if it fits.
fn power_of_ten(d: usize) -> (r: Option<i128>)
    ensures
        match r {
            Some(p) => p == pow(10, d as nat) && p >= 1,
            None => pow(10, d as nat) > i128::MAX,
        },
{
    let mut p: i128 = 1;
    let mut i: usize = 0;
    reveal(pow);
    while i < d
        invariant
            i <= d,
            p == pow(10, i as nat),
            p >= 1,
        decreases d - i,
    {
        reveal(pow);
        assert(pow(10, (i + 1) as nat) == 10 * pow(10, i as nat));
        match p.checked_mul(10) {
            Some(q) => p = q,
            None => {
                proof {
                    lemma_pow_increases(10, (i + 1) as nat, d as nat);
                }
                return None;
            },
        }
        i += 1;
    }
    Some(p)
}

/// A longer run of digits denotes a number that is no smaller.
proof fn lemma_digits_grow(b: Seq<u8>, k: int)
    requires
        is_digits(b),
        0 <= k <= b.len(),
    ensures
        digits_value(b.take(k)) <= digits_value(b),
    decreases b.len() - k,
{
    if k < b.len() {
        lemma_digits_grow(b, k + 1);
        assert(b.take(k + 1).drop_last() =~= b.take(k));
        assert(b.take(k + 1).last() == b[k]);
    } else {
        assert(b.take(k) =~= b);
    }
}

/// The number that `b[lo..hi]` denotes.
fn read_digits(b: &[u8], lo: usize, hi: usize) -> (r: Result<i128, ConvError>)
    requires
        lo <= hi <= b@.len(),
    ensures
        ({
            let s = b@.subrange(lo as int, hi as int);
            match r {
                Ok(n) => is_digits(s) && n == digits_value(s) && n >= 0,
                Err(ConvError::NotDecimal) => !is_digits(s),
                Err(ConvError::Overflow) => is_digits(s) && digits_value(s) > i128::MAX,
                Err(ConvError::OffTickGrid) => false,
            }
        }),
{
    let ghost s = b@.subrange(lo as int, hi as int);
    let mut i: usize = lo;
    while i < hi
        invariant
            lo <= i <= hi <= b@.len(),
            s == b@.subrange(lo as int, hi as int),
            forall|k: int| 0 <= k < i - lo ==> 48 <= #[trigger] s[k] <= 57,
        decreases hi - i,
    {
        if b[i] < 48 || b[i] > 57 {
            assert(!(48 <= s[i - lo] <= 57));
            return Err(ConvError::NotDecimal);
        }
        assert(s[i - lo] == b@[i as int]);
        i += 1;
    }
    assert(is_digits(s));
    let mut n: i128 = 0;
    let mut j: usize = lo;
    while j < hi
        invariant
            lo <= j <= hi <= b@.len(),
            s == b@.subrange(lo as int, hi as int),
            is_digits(s),
            n == digits_value(s.take(j - lo)),
            n >= 0,
        decreases hi - j,
    {
        let ghost k = j - lo;
        assert(s[k] == b@[j as int]);
        let digit: i128 = (b[j] - 48) as i128;
        proof {
            assert(s.take(k + 1).drop_last() =~= s.take(k));
            assert(s.take(k + 1).last() == s[k]);
            lemma_digits_grow(s, k + 1);
        }
        let tens: i128 = match n.checked_mul(10) {
            Some(t) => t,
            None => return Err(ConvError::Overflow),
        };
        n = match tens.checked_add(digit) {
            Some(m) => m,
            None => return Err(ConvError::Overflow),
        };
        j += 1;
    }
    assert(s.take(hi - lo) =~= s);
    Ok(n)
}

/// The parts of a decimal number put together, times ten to the power `d`.
fn assemble(
    int_read: Result<i128, ConvError>,
    frac_read: Result<i128, ConvError>,
    d: usize,
    frac_len: usize,
    Ghost(whole): Ghost<Seq<u8>>,
    Ghost(frac): Ghost<Seq<u8>>,
) -> (r: Option<i128>)
    requires
        frac_len <= d,
        match int_read {
            Ok(n) => n == digits_value(whole) && n >= 0,
            Err(_) => digits_value(whole) > i128::MAX,
        },
        match frac_read {
            Ok(n) => n == digits_value(frac) && n >= 0,
            Err(_) => digits_value(frac) > i128::MAX,
        },
    ensures
        ({
            let magnitude = digits_value(whole) * pow(10, d as nat) + digits_value(frac) * pow(
                10,
                (d - frac_len) as nat,
            );
            match r {
                Some(m) => pow(10, d as nat) <= i128::MAX && m == magnitude && m >= 0,
                None => pow(10, d as nat) > i128::MAX || magnitude > i128::MAX,
            }
        }),
{
    let scale: i128 = match power_of_ten(d) {
        Some(p) => p,
        None => return None,
    };
    let ghost sc = pow(10, d as nat);
    let ghost iv = digits_value(whole) as int;
    let ghost fv = digits_value(frac) as int;
    let ghost pd = pow(10, (d - frac_len) as nat);
    proof {
        lemma_pow_positive(10, (d - frac_len) as nat);
        assert(iv * sc >= iv && fv * pd >= fv && iv * sc >= 0 && fv * pd >= 0) by (nonlinear_arith)
            requires
                iv >= 0,
                fv >= 0,
                sc >= 1,
                pd >= 1,
        ;
        lemma_pow_increases(10, (d - frac_len) as nat, d as nat);
    }
    let int_val: i128 = match int_read {
        Ok(n) => n,
        Err(_) => return None,
    };
    let frac_val: i128 = match frac_read {
        Ok(n) => n,
        Err(_) => return None,
    };
    let pad: i128 = match power_of_ten(d - frac_len) {
        Some(p) => p,
        None => return None,
    };
    let high: i128 = match int_val.checked_mul(scale) {
        Some(x) => x,
        None => return None,
    };
    let low: i128 = match frac_val.checked_mul(pad) {
        Some(x) => x,
        None => return None,
    };
    high.checked_add(low)
}

/// The decimal number that `s` denotes, times ten to the power `d`.
pub fn scale_to_int(s: &str, d: usize) -> (r: Result<i128, ConvError>)
    ensures
        match r {
            Ok(n) => scaled(s.spec_bytes(), d as nat) == Ok::<int, ConvError>(n as int),
            Err(e) => scaled(s.spec_bytes(), d as nat) == Err::<int, ConvError>(e),
        },
        r matches Ok(n) ==> -i128::MAX <= n,
{
    scale_bytes(s.as_bytes(), d)
}

/// The decimal number that some bytes denote, times ten to the power `d`.
#[verifier::spinoff_prover]
#[verifier::rlimit(40)]
fn scale_bytes(b: &[u8], d: usize) -> (r: Result<i128, ConvError>)
    ensures
        match r {
            Ok(n) => scaled(b@, d as nat) == Ok::<int, ConvError>(n as int),
            Err(e) => scaled(b@, d as nat) == Err::<int, ConvError>(e),
        },
        r matches Ok(n) ==> -i128::MAX <= n,
{
    let negative: bool = b.len() > 0 && b[0] == MINUS;
    let start: usize = if negative {
        1
    } else {
        0
    };
    let k: usize = find_point(b, start);
    let has_point: bool = k < b.len();
    let ghost body = if negative {
        b@.skip(1)
    } else {
        b@
    };
    let ghost whole = b@.subrange(start as int, k as int);
    let frac_lo: usize = if has_point {
        k + 1
    } else {
        k
    };
    let ghost frac = b@.subrange(frac_lo as int, b@.len() as int);
    proof {
        lemma_point_shift(b@, start as int, start as int);
        assert(body =~= b@.skip(start as int));
        let kb = point_from(body, 0);
        assert(kb == k - start);
        assert(whole =~= body.take(kb));
        assert(frac =~= if kb < body.len() { body.skip(kb + 1) } else { Seq::empty() });
    }
    let frac_len: usize = b.len() - frac_lo;
    if k == start && frac_len == 0 {
        return Err(ConvError::NotDecimal);
    }
    let int_read = read_digits(b, start, k);
    let frac_read = read_digits(b, frac_lo, b.len());
    match int_read {
        Err(ConvError::NotDecimal) => {
            return Err(ConvError::NotDecimal);
        },
        _ => {},
    }
    match frac_read {
        Err(ConvError::NotDecimal) => {
            return Err(ConvError::NotDecimal);
        },
        _ => {},
    }
    if frac_len > d {
        return Err(ConvError::NotDecimal);
    }
    let assembled = assemble(int_read, frac_read, d, frac_len, Ghost(whole), Ghost(frac));
    match assembled {
        Some(magnitude) => Ok(
            if negative {
                -magnitude
            } else {
                magnitude
            },
        ),
        None => Err(ConvError::Overflow),
    }
}

/// Searching a tail for the point is searching the whole from there.
proof fn lemma_point_shift(b: Seq<u8>, cut: int, from: int)
    requires
        0 <= cut <= from <= b.len(),
    ensures
        point_from(b.skip(cut), from - cut) == point_from(b, from) - cut,
    decreases b.len() - from,
{
    if from < b.len() && b[from] != POINT {
        lemma_point_shift(b, cut, from + 1);
    }
}

/// The number of ticks that `value` is.
pub fn to_ticks(value: &str, tick: &str) -> (r: Result<i64, ConvError>)
    ensures
        match r {
            Ok(n) => tick_count(value.spec_bytes(), tick.spec_bytes()) == Ok::<int, ConvError>(
                n as int,
            ),
            Err(e) => tick_count(value.spec_bytes(), tick.spec_bytes()) == Err::<int, ConvError>(e),
        },
{
    let dv: usize = frac_digits(value);
    let dt: usize = frac_digits(tick);
    let d: usize = if dv > dt {
        dv
    } else {
        dt
    };
    let v: i128 = match scale_to_int(value, d) {
        Ok(v) => v,
        Err(e) => return Err(e),
    };
    let t: i128 = match scale_to_int(tick, d) {
        Ok(t) => t,
        Err(e) => return Err(e),
    };
    if t == 0 {
        return Err(ConvError::OffTickGrid);
    }
    let vm: i128 = if v < 0 {
        -v
    } else {
        v
    };
    let tm: i128 = if t < 0 {
        -t
    } else {
        t
    };
    if vm % tm != 0 {
        return Err(ConvError::OffTickGrid);
    }
    let qm: i128 = vm / tm;
    proof {
        vstd::arithmetic::div_mod::lemma_div_is_ordered_by_denominator(vm as int, 1, tm as int);
        vstd::arithmetic::div_mod::lemma_div_pos_is_pos(vm as int, tm as int);
    }
    let q: i128 = if (v < 0) == (t < 0) {
        qm
    } else {
        -qm
    };
    if q < i64::MIN as i128 || q > i64::MAX as i128 {
        return Err(ConvError::Overflow);
    }
    Ok(q as i64)
}

/// The conversion is exact: the tick count times the tick is the value.
pub proof fn law_ticks_are_exact(value: Seq<u8>, tick: Seq<u8>, n: int)
    requires
        tick_count(value, tick) == Ok::<int, ConvError>(n),
    ensures
        exists|d: nat|
            (#[trigger] scaled(value, d)) is Ok && scaled(tick, d) is Ok && n * scaled(tick, d)->Ok_0
                == scaled(value, d)->Ok_0,
{
    let d = if fraction_len(value) > fraction_len(tick) {
        fraction_len(value)
    } else {
        fraction_len(tick)
    } as nat;
    let v = scaled(value, d)->Ok_0;
    let t = scaled(tick, d)->Ok_0;
    let vm = magnitude_of(v);
    let tm = magnitude_of(t);
    vstd::arithmetic::div_mod::lemma_fundamental_div_mod(vm, tm);
    assert(n * t == v) by (nonlinear_arith)
        requires
            vm == tm * (vm / tm) + vm % tm,
            vm % tm == 0,
            vm == magnitude_of(v),
            tm == magnitude_of(t),
            n == (if (v < 0) == (t < 0) { vm / tm } else { -(vm / tm) }),
    ;
    assert(scaled(value, d) is Ok && scaled(tick, d) is Ok && n * scaled(tick, d)->Ok_0 == scaled(
        value,
        d,
    )->Ok_0);
}

proof fn lemma_no_point(b: Seq<u8>, from: int, k: int)
    requires
        0 <= from <= k <= b.len(),
        forall|i: int| from <= i < k ==> #[trigger] b[i] != POINT,
        k < b.len() ==> b[k] == POINT,
    ensures
        point_from(b, from) == k,
    decreases k - from,
{
    if from < k {
        lemma_no_point(b, from + 1, k);
    }
}

proof fn lemma_digits_joined(a: Seq<u8>, b: Seq<u8>)
    requires
        is_digits(a),
        is_digits(b),
    ensures
        digits_value(a + b) == digits_value(a) * pow(10, b.len()) + digits_value(b),
    decreases b.len(),
{
    if b.len() == 0 {
        assert(a + b =~= a);
        vstd::arithmetic::power::lemma_pow0(10);
    } else {
        let c = b.drop_last();
        lemma_digits_joined(a, c);
        assert((a + b).drop_last() =~= a + c);
        vstd::arithmetic::power::lemma_pow1(10);
        vstd::arithmetic::power::lemma_pow_adds(10, c.len(), 1);
        let x = digits_value(a) as int;
        let y = pow(10, c.len());
        assert((x * y) * 10 == x * (y * 10)) by (nonlinear_arith);
        assert((x * y + digits_value(c)) * 10 == (x * y) * 10 + digits_value(c) * 10)
            by (nonlinear_arith);
    }
}

/// What a decimal number is. The point moves with the scale: a number with `f.len()` digits
/// behind the point, taken that many powers of ten larger, is the number without the point.
/// A minus makes it negative. One more digit at the end of a whole number makes it ten
/// times as large and adds the digit, and a digit alone is itself.
pub proof fn law_decimals_are_positional(w: Seq<u8>, f: Seq<u8>, c: u8)
    requires
        w.len() > 0,
        forall|i: int| 0 <= i < w.len() ==> 48 <= #[trigger] w[i] <= 57,
        forall|i: int| 0 <= i < f.len() ==> 48 <= #[trigger] f[i] <= 57,
        48 <= c <= 57,
        digits_value(w + f) <= i128::MAX,
        pow(10, f.len()) <= i128::MAX,
        digits_value(w.push(c)) <= i128::MAX,
    ensures
        scaled(w + seq![46u8] + f, f.len()) == scaled(w + f, 0),
        scaled(w + f, 0) matches Ok(v) && scaled(seq![45u8] + w + f, 0) == Ok::<int, ConvError>(-v),
        scaled(w, 0) matches Ok(v) && scaled(w.push(c), 0) == Ok::<int, ConvError>(10 * v + c - 48),
        scaled(seq![c], 0) == Ok::<int, ConvError>(c - 48),
{
    vstd::arithmetic::power::lemma_pow0(10);
    let all = w + f;
    assert(is_digits(all));
    lemma_digits_joined(w, f);
    lemma_plain(all);
    // With a point.
    let b = w + seq![46u8] + f;
    lemma_no_point(b, 0, w.len() as int);
    assert(b.take(w.len() as int) =~= w);
    assert(b.skip(w.len() as int + 1) =~= f);
    assert(digits_value(f) * 1 == digits_value(f));
    assert(b[0] == w[0]);
    // With a minus.
    let m = seq![45u8] + w + f;
    assert(m.skip(1) =~= all);
    lemma_no_point(all, 0, all.len() as int);
    assert(all.take(all.len() as int) =~= all);
    lemma_digits_grow(w.push(c), w.len() as int);
    assert(w.push(c).take(w.len() as int) =~= w);
    assert(w.push(c).drop_last() =~= w);
    lemma_plain(w);
    lemma_plain(w.push(c));
    lemma_plain(seq![c]);
    assert(seq![c].drop_last() =~= Seq::<u8>::empty());
    reveal_with_fuel(digits_value, 2);
}

proof fn lemma_plain(b: Seq<u8>)
    requires
        b.len() > 0,
        is_digits(b),
    ensures
        digits_value(b) <= i128::MAX ==> scaled(b, 0) == Ok::<int, ConvError>(
            digits_value(b) as int,
        ),
{
    vstd::arithmetic::power::lemma_pow0(10);
    lemma_no_point(b, 0, b.len() as int);
    assert(b.take(b.len() as int) =~= b);
    assert(digits_value(Seq::<u8>::empty()) == 0);
    assert(digits_value(b) * 1 == digits_value(b));
}

/// A value is off the grid only where it is no whole number of ticks: where the conversion
/// says so, no number of ticks makes up the value, or the tick is zero.
pub proof fn law_off_grid_means_no_multiple(value: Seq<u8>, tick: Seq<u8>, d: nat, n: int)
    requires
        tick_count(value, tick) == Err::<int, ConvError>(ConvError::OffTickGrid),
        d == (if fraction_len(value) > fraction_len(tick) {
            fraction_len(value)
        } else {
            fraction_len(tick)
        }),
    ensures
        scaled(value, d) matches Ok(v) && (scaled(tick, d) matches Ok(t) && (t == 0 || n * t != v)),
{
    if let Ok(v) = scaled(value, d) {
        if let Ok(t) = scaled(tick, d) {
            if t != 0 && n * t == v {
                let vm = magnitude_of(v);
                let tm = magnitude_of(t);
                let nm = magnitude_of(n);
                assert(vm == nm * tm) by (nonlinear_arith)
                    requires
                        n * t == v,
                        vm == (if v < 0 { -v } else { v }),
                        tm == (if t < 0 { -t } else { t }),
                        nm == (if n < 0 { -n } else { n }),
                ;
                vstd::arithmetic::div_mod::lemma_mod_multiples_basic(nm, tm);
            }
        }
    }
}

} // verus!
