//! Command lines: that of the recorder and that of the corpus generator, and the
//! files that they write beside a corpus.

use crate::text::{
    copy_text, decimal, law_numbers_read_back, number_message, own_text, parse_number, read_number,
    same_text, texts, to_uppercase, uppercase, NumberError,
};
use vstd::prelude::*;

verus! {

/// A flag that takes a value.
#[derive(Clone, Copy, PartialEq, Eq, Structural, Debug)]
pub enum Flag {
    /// The symbol to record.
    Symbol,
    /// How long to record.
    DurationSecs,
    /// Where to write.
    Out,
    /// After how many events to stop.
    MaxEvents,
    /// The shape of the load.
    Profile,
    /// The seed of the random stream.
    Seed,
    /// The number of events.
    Events,
}

/// A flag as it is written.
pub open spec fn flag_text(f: Flag) -> Seq<char> {
    match f {
        Flag::Symbol => "--symbol"@,
        Flag::DurationSecs => "--duration-secs"@,
        Flag::Out => "--out"@,
        Flag::MaxEvents => "--max-events"@,
        Flag::Profile => "--profile"@,
        Flag::Seed => "--seed"@,
        Flag::Events => "--events"@,
    }
}

impl Flag {
    /// The flag as it is written.
    pub fn text(&self) -> (s: &'static str)
        ensures
            s@ == flag_text(*self),
    {
        match self {
            Flag::Symbol => "--symbol",
            Flag::DurationSecs => "--duration-secs",
            Flag::Out => "--out",
            Flag::MaxEvents => "--max-events",
            Flag::Profile => "--profile",
            Flag::Seed => "--seed",
            Flag::Events => "--events",
        }
    }
}

/// What is wrong with a command line.
#[derive(Debug)]
pub enum CliError {
    /// An argument that is no flag.
    Unknown(String),
    /// A flag at the end that lacks its value.
    NoValue,
    /// A value that is no number.
    Number(NumberError),
    /// A value that is no profile.
    Profile(String),
    /// A flag that is missing.
    Missing(Flag),
}

/// What is wrong with a command line, in the abstract.
pub enum CliFault {
    /// An argument that is no flag.
    Unknown(Seq<char>),
    /// A flag at the end that lacks its value.
    NoValue,
    /// A value that is no number.
    Number(NumberError),
    /// A value that is no profile.
    Profile(Seq<char>),
    /// A flag that is missing.
    Missing(Flag),
}

impl View for CliError {
    type V = CliFault;

    open spec fn view(&self) -> CliFault {
        match *self {
            CliError::Unknown(s) => CliFault::Unknown(s@),
            CliError::NoValue => CliFault::NoValue,
            CliError::Number(e) => CliFault::Number(e),
            CliError::Profile(s) => CliFault::Profile(s@),
            CliError::Missing(f) => CliFault::Missing(f),
        }
    }
}

/// What is said of a command line.
pub open spec fn fault_message(f: CliFault) -> Seq<char> {
    match f {
        CliFault::Unknown(s) => "unknown argument: "@ + s,
        CliFault::NoValue => "missing value for flag"@,
        CliFault::Number(e) => number_message(e),
        CliFault::Profile(s) => "unknown profile: "@ + s + " (steady|burst|flashcrash)"@,
        CliFault::Missing(f) => "missing "@ + flag_text(f),
    }
}

impl CliError {
    /// What is said of it.
    pub fn message(&self) -> (r: String)
        ensures
            r@ == fault_message(self@),
    {
        match self {
            CliError::Unknown(s) => {
                let mut r = copy_text("unknown argument: ");
                r.append(s.as_str());
                r
            },
            CliError::NoValue => copy_text("missing value for flag"),
            CliError::Number(e) => copy_text(e.message()),
            CliError::Profile(s) => {
                let mut r = copy_text("unknown profile: ");
                r.append(s.as_str());
                r.append(" (steady|burst|flashcrash)");
                r
            },
            CliError::Missing(f) => {
                let mut r = copy_text("missing ");
                r.append(f.text());
                r
            },
        }
    }
}

/// What the recorder is asked to do.
#[derive(Debug)]
pub struct RecorderCli {
    /// The symbol, in upper case.
    pub symbol: String,
    /// How long to record.
    pub duration_secs: u64,
    /// Where to write.
    pub out: String,
    /// After how many events to stop.
    pub max_events: Option<u64>,
    /// Whether trades are recorded.
    pub with_trades: bool,
}

/// What the arguments so far say to the recorder.
pub struct RecorderDraft {
    /// The symbol.
    pub symbol: Option<Seq<char>>,
    /// How long to record.
    pub duration_secs: Option<u64>,
    /// Where to write.
    pub out: Option<Seq<char>>,
    /// After how many events to stop.
    pub max_events: Option<u64>,
    /// Whether trades are recorded.
    pub with_trades: bool,
}

/// A number as a `u64`.
pub open spec fn u64_value(s: Seq<char>) -> Result<u64, NumberError> {
    match read_number(s, u64::MAX as int) {
        Ok(n) => Ok(n as u64),
        Err(e) => Err(e),
    }
}

/// What the arguments from place `i` on add to a draft.
pub open spec fn recorder_args(args: Seq<Seq<char>>, i: int, d: RecorderDraft) -> Result<
    RecorderDraft,
    CliFault,
>
    decreases args.len() - i,
{
    if i >= args.len() {
        Ok(d)
    } else if args[i] == "--with-trades"@ {
        recorder_args(args, i + 1, RecorderDraft { with_trades: true, ..d })
    } else if args[i] == "--symbol"@ || args[i] == "--duration-secs"@ || args[i] == "--out"@
        || args[i] == "--max-events"@ {
        if i + 1 >= args.len() {
            Err(CliFault::NoValue)
        } else if args[i] == "--symbol"@ {
            recorder_args(
                args,
                i + 2,
                RecorderDraft { symbol: Some(uppercase(args[i + 1])), ..d },
            )
        } else if args[i] == "--out"@ {
            recorder_args(args, i + 2, RecorderDraft { out: Some(args[i + 1]), ..d })
        } else {
            match u64_value(args[i + 1]) {
                Err(e) => Err(CliFault::Number(e)),
                Ok(n) => if args[i] == "--duration-secs"@ {
                    recorder_args(args, i + 2, RecorderDraft { duration_secs: Some(n), ..d })
                } else {
                    recorder_args(args, i + 2, RecorderDraft { max_events: Some(n), ..d })
                },
            }
        }
    } else {
        Err(CliFault::Unknown(args[i]))
    }
}

/// What a command line says to the recorder: later flags win over earlier ones, and
/// symbol, duration and place are needed.
pub open spec fn recorder_cli(args: Seq<Seq<char>>) -> Result<RecorderDraft, CliFault> {
    let none = RecorderDraft {
        symbol: None,
        duration_secs: None,
        out: None,
        max_events: None,
        with_trades: false,
    };
    match recorder_args(args, 0, none) {
        Err(f) => Err(f),
        Ok(d) => if d.symbol is None {
            Err(CliFault::Missing(Flag::Symbol))
        } else if d.duration_secs is None {
            Err(CliFault::Missing(Flag::DurationSecs))
        } else if d.out is None {
            Err(CliFault::Missing(Flag::Out))
        } else {
            Ok(d)
        },
    }
}

/// Reads a number as a `u64`.
fn number_value(s: &str) -> (r: Result<u64, CliError>)
    ensures
        match r {
            Ok(n) => u64_value(s@) == Ok::<u64, NumberError>(n),
            Err(e) => u64_value(s@) is Err && e@ == CliFault::Number(u64_value(s@)->Err_0),
        },
{
    match parse_number(s, u64::MAX) {
        Ok(n) => Ok(n),
        Err(e) => Err(CliError::Number(e)),
    }
}

/// Reads the recorder's command line.
pub fn parse_cli(args: &[String]) -> (r: Result<RecorderCli, CliError>)
    ensures
        match r {
            Ok(c) => recorder_cli(texts(args@)) == Ok::<RecorderDraft, CliFault>(
                RecorderDraft {
                    symbol: Some(c.symbol@),
                    duration_secs: Some(c.duration_secs),
                    out: Some(c.out@),
                    max_events: c.max_events,
                    with_trades: c.with_trades,
                },
            ),
            Err(e) => recorder_cli(texts(args@)) == Err::<RecorderDraft, CliFault>(e@),
        },
{
    let ghost all = texts(args@);
    let mut symbol: Option<String> = None;
    let mut duration_secs: Option<u64> = None;
    let mut out: Option<String> = None;
    let mut max_events: Option<u64> = None;
    let mut with_trades: bool = false;
    let n: usize = args.len();
    let mut i: usize = 0;
    let ghost none = RecorderDraft {
        symbol: None,
        duration_secs: None,
        out: None,
        max_events: None,
        with_trades: false,
    };
    while i < n
        invariant
            i <= n == args@.len(),
            all == texts(args@),
            recorder_args(all, 0, none) == recorder_args(
                all,
                i as int,
                RecorderDraft {
                    symbol: own_text(symbol),
                    duration_secs,
                    out: own_text(out),
                    max_events,
                    with_trades,
                },
            ),
            none == (RecorderDraft {
                symbol: None,
                duration_secs: None,
                out: None,
                max_events: None,
                with_trades: false,
            }),
        decreases n - i,
    {
        let arg = args[i].as_str();
        assert(all[i as int] == arg@);
        if same_text(arg, "--with-trades") {
            with_trades = true;
            i += 1;
        } else if same_text(arg, "--symbol") {
            if n - i < 2 {
                return Err(CliError::NoValue);
            }
            assert(all[i + 1] == args@[i + 1]@);
            symbol = Some(to_uppercase(args[i + 1].as_str()));
            i += 2;
        } else if same_text(arg, "--out") {
            if n - i < 2 {
                return Err(CliError::NoValue);
            }
            assert(all[i + 1] == args@[i + 1]@);
            out = Some(copy_text(args[i + 1].as_str()));
            i += 2;
        } else if same_text(arg, "--duration-secs") {
            if n - i < 2 {
                return Err(CliError::NoValue);
            }
            assert(all[i + 1] == args@[i + 1]@);
            match number_value(args[i + 1].as_str()) {
                Ok(v) => duration_secs = Some(v),
                Err(e) => return Err(e),
            }
            i += 2;
        } else if same_text(arg, "--max-events") {
            if n - i < 2 {
                return Err(CliError::NoValue);
            }
            assert(all[i + 1] == args@[i + 1]@);
            match number_value(args[i + 1].as_str()) {
                Ok(v) => max_events = Some(v),
                Err(e) => return Err(e),
            }
            i += 2;
        } else {
            return Err(CliError::Unknown(copy_text(arg)));
        }
    }
    let symbol = match symbol {
        Some(s) => s,
        None => return Err(CliError::Missing(Flag::Symbol)),
    };
    let duration_secs = match duration_secs {
        Some(d) => d,
        None => return Err(CliError::Missing(Flag::DurationSecs)),
    };
    let out = match out {
        Some(o) => o,
        None => return Err(CliError::Missing(Flag::Out)),
    };
    Ok(RecorderCli { symbol, duration_secs, out, max_events, with_trades })
}

/// The place that the arguments from `i` on give for the results, `d` where they
/// give none: the value of the last `--out` that has one.
pub open spec fn out_from(args: Seq<Seq<char>>, i: int, d: Option<Seq<char>>) -> Option<Seq<char>>
    decreases args.len() - i,
{
    if i >= args.len() {
        d
    } else if args[i] == "--out"@ && i + 1 < args.len() {
        out_from(args, i + 2, Some(args[i + 1]))
    } else {
        out_from(args, i + 1, d)
    }
}

/// The place that the arguments give for the results.
pub fn parse_out(args: &[String]) -> (r: Option<String>)
    ensures
        own_text(r) == out_from(texts(args@), 0, None),
{
    let ghost all = texts(args@);
    let mut out: Option<String> = None;
    let n: usize = args.len();
    let mut i: usize = 0;
    while i < n
        invariant
            i <= n == args@.len(),
            all == texts(args@),
            out_from(all, 0, None) == out_from(all, i as int, own_text(out)),
        decreases n - i,
    {
        assert(all[i as int] == args@[i as int]@);
        if same_text(args[i].as_str(), "--out") && n - i >= 2 {
            assert(all[i + 1] == args@[i + 1]@);
            out = Some(copy_text(args[i + 1].as_str()));
            i += 2;
        } else {
            i += 1;
        }
    }
    out
}

proof fn lemma_flags_are_apart()
    ensures
        "--symbol"@.len() == 8,
        "--duration-secs"@.len() == 15,
        "--out"@.len() == 5,
        "--max-events"@.len() == 12,
        "--with-trades"@.len() == 13,
{
    reveal_strlit("--symbol");
    reveal_strlit("--duration-secs");
    reveal_strlit("--out");
    reveal_strlit("--max-events");
    reveal_strlit("--with-trades");
}

/// What each argument tells the recorder: the symbol, in upper case; how many seconds to
/// record; where to write; after how many events to stop; and, without a value, that trades
/// are recorded. Each sets its own and leaves the others, so that a later one wins over an
/// earlier one. A flag without its value, a number that is none and an unknown argument are
/// refused.
pub proof fn law_each_flag_sets_its_own(args: Seq<Seq<char>>, i: int, d: RecorderDraft)
    requires
        0 <= i < args.len(),
    ensures
        ({
            let r = recorder_args(args, i, d);
            let more = i + 1 < args.len();
            &&& args[i] == "--with-trades"@ ==> r == recorder_args(
                args,
                i + 1,
                RecorderDraft { with_trades: true, ..d },
            )
            &&& args[i] == "--symbol"@ && more ==> r == recorder_args(
                args,
                i + 2,
                RecorderDraft { symbol: Some(uppercase(args[i + 1])), ..d },
            )
            &&& args[i] == "--out"@ && more ==> r == recorder_args(
                args,
                i + 2,
                RecorderDraft { out: Some(args[i + 1]), ..d },
            )
            &&& args[i] == "--duration-secs"@ && more ==> (u64_value(args[i + 1]) matches Ok(n)
                ==> r == recorder_args(args, i + 2, RecorderDraft { duration_secs: Some(n), ..d }))
            &&& args[i] == "--max-events"@ && more ==> (u64_value(args[i + 1]) matches Ok(n) ==> r
                == recorder_args(args, i + 2, RecorderDraft { max_events: Some(n), ..d }))
            &&& (args[i] == "--duration-secs"@ || args[i] == "--max-events"@) && more ==> (u64_value(
                args[i + 1],
            ) matches Err(e) ==> r == Err::<RecorderDraft, CliFault>(CliFault::Number(e)))
            &&& (args[i] == "--symbol"@ || args[i] == "--out"@ || args[i] == "--duration-secs"@
                || args[i] == "--max-events"@) && !more ==> r == Err::<RecorderDraft, CliFault>(
                CliFault::NoValue,
            )
            &&& args[i] != "--with-trades"@ && args[i] != "--symbol"@ && args[i] != "--out"@
                && args[i] != "--duration-secs"@ && args[i] != "--max-events"@ ==> r == Err::<
                RecorderDraft,
                CliFault,
            >(CliFault::Unknown(args[i]))
            &&& recorder_args(args, args.len() as int, d) == Ok::<RecorderDraft, CliFault>(d)
        }),
{
    lemma_flags_are_apart();
}

/// The value of a number argument is the number that it is written as, up to the largest
/// machine number.
pub proof fn law_number_arguments_read_back(n: u64)
    ensures
        u64_value(decimal(n as nat)) == Ok::<u64, NumberError>(n),
{
    law_numbers_read_back(n as nat, u64::MAX as nat);
}

/// A command line of the recorder is complete with a symbol, a duration and a place, in this
/// order of what is missed first; a limit and trades are left out unless they are asked for.
pub proof fn law_what_the_recorder_needs(args: Seq<Seq<char>>)
    ensures
        ({
            let none = RecorderDraft {
                symbol: None,
                duration_secs: None,
                out: None,
                max_events: None,
                with_trades: false,
            };
            match recorder_args(args, 0, none) {
                Err(f) => recorder_cli(args) == Err::<RecorderDraft, CliFault>(f),
                Ok(d) => {
                    &&& d.symbol is None ==> recorder_cli(args) == Err::<RecorderDraft, CliFault>(
                        CliFault::Missing(Flag::Symbol),
                    )
                    &&& d.symbol is Some && d.duration_secs is None ==> recorder_cli(args) == Err::<
                        RecorderDraft,
                        CliFault,
                    >(CliFault::Missing(Flag::DurationSecs))
                    &&& d.symbol is Some && d.duration_secs is Some && d.out is None
                        ==> recorder_cli(args) == Err::<RecorderDraft, CliFault>(
                        CliFault::Missing(Flag::Out),
                    )
                    &&& d.symbol is Some && d.duration_secs is Some && d.out is Some
                        ==> recorder_cli(args) == Ok::<RecorderDraft, CliFault>(d)
                },
            }
        }),
{
}

/// The place for the results is the argument behind the last flag for it.
pub proof fn law_the_last_place_counts(args: Seq<Seq<char>>, i: int, d: Option<Seq<char>>)
    requires
        0 <= i < args.len(),
    ensures
        args[i] == "--out"@ && i + 1 < args.len() ==> out_from(args, i, d) == out_from(
            args,
            i + 2,
            Some(args[i + 1]),
        ),
        args[i] != "--out"@ ==> out_from(args, i, d) == out_from(args, i + 1, d),
        out_from(args, args.len() as int, d) == d,
{
}

} // verus!
