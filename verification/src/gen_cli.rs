//! The corpus generator's command line, and what is noted beside each corpus.

use crate::cli::{u64_value, CliError, CliFault, Flag};
use crate::price::{Px, Qty};
use crate::synthetic::{GenConfig, Profile, GENERATOR_VERSION};
use crate::text::{
    copy_text, decimal, own_text, parse_number, push_decimal, push_signed_decimal, read_number,
    same_text, signed_decimal, strip_suffix, texts, without_suffix, NumberError,
};
use vstd::prelude::*;

verus! {

/// The seed of the committed corpora.
pub const CANON_SEED: u64 = 1;

/// The number of events of the committed corpora.
pub const CANON_EVENTS: usize = 100_000;

/// The middle price of every corpus.
pub const CANON_MID: i64 = 65_000;

/// The band of every corpus.
pub const CANON_BAND: i64 = 64;

/// The largest quantity of every corpus.
pub const CANON_MAX_QTY: i64 = 1_024;

/// The time of the first event of every corpus.
pub const CANON_START_TS: u64 = 0;

/// A profile's name.
pub open spec fn name_of(p: Profile) -> Seq<char> {
    match p {
        Profile::Steady => "steady"@,
        Profile::Burst => "burst"@,
        Profile::FlashCrash => "flashcrash"@,
    }
}

/// A profile's name.
pub fn profile_name(p: Profile) -> (s: &'static str)
    ensures
        s@ == name_of(p),
{
    match p {
        Profile::Steady => "steady",
        Profile::Burst => "burst",
        Profile::FlashCrash => "flashcrash",
    }
}

/// The profile of a name.
pub open spec fn profile_named(s: Seq<char>) -> Option<Profile> {
    if s == "steady"@ {
        Some(Profile::Steady)
    } else if s == "burst"@ {
        Some(Profile::Burst)
    } else if s == "flashcrash"@ {
        Some(Profile::FlashCrash)
    } else {
        None
    }
}

/// The profile of a name.
pub fn parse_profile(s: &str) -> (r: Result<Profile, CliError>)
    ensures
        match r {
            Ok(p) => profile_named(s@) == Some(p),
            Err(e) => profile_named(s@) is None && e@ == CliFault::Profile(s@),
        },
{
    if same_text(s, "steady") {
        Ok(Profile::Steady)
    } else if same_text(s, "burst") {
        Ok(Profile::Burst)
    } else if same_text(s, "flashcrash") {
        Ok(Profile::FlashCrash)
    } else {
        Err(CliError::Profile(copy_text(s)))
    }
}

/// Every profile is found by its name.
pub proof fn law_profiles_have_names(p: Profile)
    ensures
        profile_named(name_of(p)) == Some(p),
{
    reveal_strlit("steady");
    reveal_strlit("burst");
    reveal_strlit("flashcrash");
    assert("steady"@.len() == 6);
    assert("burst"@.len() == 5);
    assert("flashcrash"@.len() == 10);
}

/// The configuration with the committed corpora's prices and quantities.
pub open spec fn config(profile: Profile, seed: u64, events: usize) -> GenConfig {
    GenConfig {
        profile,
        seed,
        events,
        mid: Px(CANON_MID),
        band: CANON_BAND,
        max_qty: Qty(CANON_MAX_QTY),
        start_ts: CANON_START_TS,
    }
}

/// The configuration of a committed corpus.
pub fn canon_cfg(profile: Profile) -> (c: GenConfig)
    ensures
        c == config(profile, CANON_SEED, CANON_EVENTS),
        c.admissible(),
{
    let c = GenConfig {
        profile,
        seed: CANON_SEED,
        events: CANON_EVENTS,
        mid: Px(CANON_MID),
        band: CANON_BAND,
        max_qty: Qty(CANON_MAX_QTY),
        start_ts: CANON_START_TS,
    };
    let ghost flow = c.flow(c.events as int);
    assert(c.max_interval() * flow <= 10_000_000_000) by (nonlinear_arith)
        requires
            0 <= c.max_interval() <= 100_000,
            0 <= flow <= 100_000,
    ;
    c
}

/// The name of the note beside a corpus.
pub open spec fn note_name(out: Seq<char>) -> Seq<char> {
    match without_suffix(out, ".mdf"@) {
        Some(stem) => stem + ".meta.json"@,
        None => out + ".meta.json"@,
    }
}

/// The name of the note beside a corpus.
pub fn sibling_meta(out: &str) -> (r: String)
    ensures
        r@ == note_name(out@),
{
    let mut r = match strip_suffix(out, ".mdf") {
        Some(stem) => stem,
        None => copy_text(out),
    };
    r.append(".meta.json");
    r
}

/// The note beside a corpus.
pub open spec fn note(profile: Seq<char>, c: GenConfig) -> Seq<char> {
    "{\n  \"kind\": \"synthetic\",\n  \"profile\": \""@ + profile + "\",\n  \"seed\": "@ + decimal(
        c.seed as nat,
    ) + ",\n  \"events\": "@ + decimal(c.events as nat) + ",\n  \"mid\": "@ + signed_decimal(
        c.mid.0 as int,
    ) + ",\n  \"band\": "@ + signed_decimal(c.band as int) + ",\n  \"max_qty\": "@
        + signed_decimal(c.max_qty.0 as int) + ",\n  \"start_ts\": "@ + decimal(c.start_ts as nat)
        + ",\n  \"generator_version\": "@ + decimal(GENERATOR_VERSION as nat) + "\n}\n"@
}

/// The note beside a corpus.
pub fn meta_json(profile: &str, cfg: &GenConfig) -> (s: String)
    ensures
        s@ == note(profile@, *cfg),
{
    let mut s = copy_text("{\n  \"kind\": \"synthetic\",\n  \"profile\": \"");
    s.append(profile);
    s.append("\",\n  \"seed\": ");
    push_decimal(&mut s, cfg.seed);
    s.append(",\n  \"events\": ");
    push_decimal(&mut s, cfg.events as u64);
    s.append(",\n  \"mid\": ");
    push_signed_decimal(&mut s, cfg.mid.0);
    s.append(",\n  \"band\": ");
    push_signed_decimal(&mut s, cfg.band);
    s.append(",\n  \"max_qty\": ");
    push_signed_decimal(&mut s, cfg.max_qty.0);
    s.append(",\n  \"start_ts\": ");
    push_decimal(&mut s, cfg.start_ts);
    s.append(",\n  \"generator_version\": ");
    push_decimal(&mut s, GENERATOR_VERSION as u64);
    s.append("\n}\n");
    s
}

/// A corpus to write: its configuration, and where it and its note go.
#[derive(Debug)]
pub struct Job {
    /// What determines the corpus.
    pub cfg: GenConfig,
    /// Where the corpus goes.
    pub mdf: String,
    /// Where its note goes.
    pub meta: String,
}

/// The file of a committed corpus, without its ending.
pub open spec fn canon_stem(p: Profile) -> Seq<char> {
    "feed/corpus/"@ + name_of(p) + "-s1-100k"@
}

/// The job of a committed corpus.
pub fn canon_job(p: Profile) -> (j: Job)
    ensures
        is_canon(j, p),
{
    let mut mdf = copy_text("feed/corpus/");
    mdf.append(profile_name(p));
    mdf.append("-s1-100k");
    let mut meta = copy_text(mdf.as_str());
    mdf.append(".mdf");
    meta.append(".meta.json");
    Job { cfg: canon_cfg(p), mdf, meta }
}

/// Whether a job is that of the committed corpus of a profile.
pub open spec fn is_canon(j: Job, p: Profile) -> bool {
    &&& j.cfg == config(p, CANON_SEED, CANON_EVENTS)
    &&& j.mdf@ == canon_stem(p) + ".mdf"@
    &&& j.meta@ == canon_stem(p) + ".meta.json"@
}

/// Whether some jobs are those of the three committed corpora.
pub open spec fn all_canon(jobs: Seq<Job>) -> bool {
    &&& jobs.len() == 3
    &&& is_canon(jobs[0], Profile::Steady)
    &&& is_canon(jobs[1], Profile::Burst)
    &&& is_canon(jobs[2], Profile::FlashCrash)
}

/// The jobs of the three committed corpora.
pub fn write_all() -> (jobs: Vec<Job>)
    ensures
        all_canon(jobs@),
{
    let mut jobs: Vec<Job> = Vec::new();
    jobs.push(canon_job(Profile::Steady));
    jobs.push(canon_job(Profile::Burst));
    jobs.push(canon_job(Profile::FlashCrash));
    jobs
}

/// What the arguments so far say to the generator.
pub struct GenDraft {
    /// The shape of the load.
    pub profile: Option<Profile>,
    /// The seed.
    pub seed: Option<u64>,
    /// The number of events.
    pub events: Option<usize>,
    /// Where to write.
    pub out: Option<Seq<char>>,
}

/// A number as a `usize`.
pub open spec fn usize_value(s: Seq<char>) -> Result<usize, NumberError> {
    match read_number(s, usize::MAX as int) {
        Ok(n) => Ok(n as usize),
        Err(e) => Err(e),
    }
}

/// What the arguments from place `i` on add to a draft.
pub open spec fn gen_args(args: Seq<Seq<char>>, i: int, d: GenDraft) -> Result<GenDraft, CliFault>
    decreases args.len() - i,
{
    if i >= args.len() {
        Ok(d)
    } else if args[i] == "--profile"@ || args[i] == "--seed"@ || args[i] == "--events"@ || args[i]
        == "--out"@ {
        if i + 1 >= args.len() {
            Err(CliFault::NoValue)
        } else if args[i] == "--profile"@ {
            match profile_named(args[i + 1]) {
                Some(p) => gen_args(args, i + 2, GenDraft { profile: Some(p), ..d }),
                None => Err(CliFault::Profile(args[i + 1])),
            }
        } else if args[i] == "--seed"@ {
            match u64_value(args[i + 1]) {
                Ok(n) => gen_args(args, i + 2, GenDraft { seed: Some(n), ..d }),
                Err(e) => Err(CliFault::Number(e)),
            }
        } else if args[i] == "--events"@ {
            match usize_value(args[i + 1]) {
                Ok(n) => gen_args(args, i + 2, GenDraft { events: Some(n), ..d }),
                Err(e) => Err(CliFault::Number(e)),
            }
        } else {
            gen_args(args, i + 2, GenDraft { out: Some(args[i + 1]), ..d })
        }
    } else {
        Err(CliFault::Unknown(args[i]))
    }
}

/// What a command line says to the generator: later flags win over earlier ones, and
/// all four are needed.
pub open spec fn gen_cli(args: Seq<Seq<char>>) -> Result<GenDraft, CliFault> {
    let none = GenDraft { profile: None, seed: None, events: None, out: None };
    match gen_args(args, 0, none) {
        Err(f) => Err(f),
        Ok(d) => if d.profile is None {
            Err(CliFault::Missing(Flag::Profile))
        } else if d.out is None {
            Err(CliFault::Missing(Flag::Out))
        } else if d.seed is None {
            Err(CliFault::Missing(Flag::Seed))
        } else if d.events is None {
            Err(CliFault::Missing(Flag::Events))
        } else {
            Ok(d)
        },
    }
}

/// The job that a command line asks for.
pub fn write_one(args: &[String]) -> (r: Result<Job, CliError>)
    ensures
        match r {
            Ok(j) => gen_cli(texts(args@)) == Ok::<GenDraft, CliFault>(
                GenDraft {
                    profile: Some(j.cfg.profile),
                    seed: Some(j.cfg.seed),
                    events: Some(j.cfg.events),
                    out: Some(j.mdf@),
                },
            ) && j.cfg == config(j.cfg.profile, j.cfg.seed, j.cfg.events) && j.meta@ == note_name(
                j.mdf@,
            ),
            Err(e) => gen_cli(texts(args@)) == Err::<GenDraft, CliFault>(e@),
        },
{
    let ghost all = texts(args@);
    let ghost none = GenDraft { profile: None, seed: None, events: None, out: None };
    let mut profile: Option<Profile> = None;
    let mut seed: Option<u64> = None;
    let mut events: Option<usize> = None;
    let mut out: Option<String> = None;
    let n: usize = args.len();
    let mut i: usize = 0;
    while i < n
        invariant
            i <= n == args@.len(),
            all == texts(args@),
            none == (GenDraft { profile: None, seed: None, events: None, out: None }),
            gen_args(all, 0, none) == gen_args(
                all,
                i as int,
                GenDraft { profile, seed, events, out: own_text(out) },
            ),
        decreases n - i,
    {
        let arg = args[i].as_str();
        assert(all[i as int] == arg@);
        let known: bool = same_text(arg, "--profile") || same_text(arg, "--seed") || same_text(
            arg,
            "--events",
        ) || same_text(arg, "--out");
        if !known {
            return Err(CliError::Unknown(copy_text(arg)));
        }
        if n - i < 2 {
            return Err(CliError::NoValue);
        }
        let value = args[i + 1].as_str();
        assert(all[i + 1] == value@);
        if same_text(arg, "--profile") {
            match parse_profile(value) {
                Ok(p) => profile = Some(p),
                Err(e) => return Err(e),
            }
        } else if same_text(arg, "--seed") {
            match parse_number(value, u64::MAX) {
                Ok(v) => seed = Some(v),
                Err(e) => return Err(CliError::Number(e)),
            }
        } else if same_text(arg, "--events") {
            match parse_number(value, usize::MAX as u64) {
                Ok(v) => events = Some(v as usize),
                Err(e) => return Err(CliError::Number(e)),
            }
        } else {
            out = Some(copy_text(value));
        }
        i += 2;
    }
    let profile = match profile {
        Some(p) => p,
        None => return Err(CliError::Missing(Flag::Profile)),
    };
    let mdf = match out {
        Some(o) => o,
        None => return Err(CliError::Missing(Flag::Out)),
    };
    let seed = match seed {
        Some(s) => s,
        None => return Err(CliError::Missing(Flag::Seed)),
    };
    let events = match events {
        Some(e) => e,
        None => return Err(CliError::Missing(Flag::Events)),
    };
    let cfg = GenConfig {
        profile,
        seed,
        events,
        mid: Px(CANON_MID),
        band: CANON_BAND,
        max_qty: Qty(CANON_MAX_QTY),
        start_ts: CANON_START_TS,
    };
    let meta = sibling_meta(mdf.as_str());
    Ok(Job { cfg, mdf, meta })
}

/// Whether an argument stands among some.
fn has_arg(args: &[String], wanted: &str) -> (r: bool)
    ensures
        r == texts(args@).contains(wanted@),
{
    let mut i: usize = 0;
    while i < args.len()
        invariant
            i <= args@.len(),
            forall|k: int| 0 <= k < i ==> texts(args@)[k] != wanted@,
        decreases args@.len() - i,
    {
        assert(texts(args@)[i as int] == args@[i as int]@);
        if same_text(args[i].as_str(), wanted) {
            assert(texts(args@).contains(wanted@));
            return true;
        }
        i += 1;
    }
    false
}

/// The jobs that a command line asks for: the committed corpora where `--all` stands
/// anywhere in it, and otherwise the one that it describes.
pub fn jobs(args: &[String]) -> (r: Result<Vec<Job>, CliError>)
    ensures
        texts(args@).contains("--all"@) ==> r is Ok && all_canon(r->Ok_0@),
        !texts(args@).contains("--all"@) ==> match r {
            Ok(v) => v@.len() == 1 && gen_cli(texts(args@)) == Ok::<GenDraft, CliFault>(
                GenDraft {
                    profile: Some(v@[0].cfg.profile),
                    seed: Some(v@[0].cfg.seed),
                    events: Some(v@[0].cfg.events),
                    out: Some(v@[0].mdf@),
                },
            ) && v@[0].cfg == config(v@[0].cfg.profile, v@[0].cfg.seed, v@[0].cfg.events)
                && v@[0].meta@ == note_name(v@[0].mdf@),
            Err(e) => gen_cli(texts(args@)) == Err::<GenDraft, CliFault>(e@),
        },
{
    if has_arg(args, "--all") {
        Ok(write_all())
    } else {
        match write_one(args) {
            Ok(j) => {
                let mut v: Vec<Job> = Vec::new();
                v.push(j);
                Ok(v)
            },
            Err(e) => Err(e),
        }
    }
}

proof fn lemma_flags_are_apart()
    ensures
        "--profile"@.len() == 9,
        "--seed"@.len() == 6,
        "--events"@.len() == 8,
        "--out"@.len() == 5,
{
    reveal_strlit("--profile");
    reveal_strlit("--seed");
    reveal_strlit("--events");
    reveal_strlit("--out");
}

/// What each argument tells the generator: the profile by its name, the seed, the number of
/// events and where to write. Each sets its own and leaves the others. A flag without its
/// value, an unknown profile, a number that is none and an unknown argument are refused.
pub proof fn law_each_flag_sets_its_own(args: Seq<Seq<char>>, i: int, d: GenDraft)
    requires
        0 <= i < args.len(),
    ensures
        ({
            let r = gen_args(args, i, d);
            let more = i + 1 < args.len();
            &&& args[i] == "--profile"@ && more ==> (profile_named(args[i + 1]) matches Some(p) ==> r
                == gen_args(args, i + 2, GenDraft { profile: Some(p), ..d }))
            &&& args[i] == "--profile"@ && more && profile_named(args[i + 1]) is None ==> r == Err::<
                GenDraft,
                CliFault,
            >(CliFault::Profile(args[i + 1]))
            &&& args[i] == "--seed"@ && more ==> (u64_value(args[i + 1]) matches Ok(n) ==> r
                == gen_args(args, i + 2, GenDraft { seed: Some(n), ..d }))
            &&& args[i] == "--events"@ && more ==> (usize_value(args[i + 1]) matches Ok(n) ==> r
                == gen_args(args, i + 2, GenDraft { events: Some(n), ..d }))
            &&& args[i] == "--out"@ && more ==> r == gen_args(
                args,
                i + 2,
                GenDraft { out: Some(args[i + 1]), ..d },
            )
            &&& (args[i] == "--profile"@ || args[i] == "--seed"@ || args[i] == "--events"@ || args[i]
                == "--out"@) && !more ==> r == Err::<GenDraft, CliFault>(CliFault::NoValue)
            &&& args[i] != "--profile"@ && args[i] != "--seed"@ && args[i] != "--events"@ && args[i]
                != "--out"@ ==> r == Err::<GenDraft, CliFault>(CliFault::Unknown(args[i]))
            &&& gen_args(args, args.len() as int, d) == Ok::<GenDraft, CliFault>(d)
        }),
{
    lemma_flags_are_apart();
}

/// The committed corpora differ in their profile alone: one hundred thousand events of the
/// seed one around a middle of 65000 ticks, in a band of 64 ticks, with up to 1024 lots,
/// from time zero on.
pub proof fn law_committed_configuration(p: Profile, c: GenConfig)
    requires
        call_ensures(canon_cfg, (p,), c),
    ensures
        c.profile == p,
        c.seed == 1,
        c.events == 100_000,
        c.mid.0 == 65_000,
        c.band == 64,
        c.max_qty.0 == 1_024,
        c.start_ts == 0,
{
}

/// A command line of the generator is complete with all four of its arguments; what is
/// missing is named, the profile first, then the place, the seed and the number of events.
pub proof fn law_what_the_generator_needs(args: Seq<Seq<char>>)
    ensures
        ({
            let none = GenDraft { profile: None, seed: None, events: None, out: None };
            match gen_args(args, 0, none) {
                Err(f) => gen_cli(args) == Err::<GenDraft, CliFault>(f),
                Ok(d) => {
                    &&& d.profile is None ==> gen_cli(args) == Err::<GenDraft, CliFault>(
                        CliFault::Missing(Flag::Profile),
                    )
                    &&& d.profile is Some && d.out is None ==> gen_cli(args) == Err::<
                        GenDraft,
                        CliFault,
                    >(CliFault::Missing(Flag::Out))
                    &&& d.profile is Some && d.out is Some && d.seed is None ==> gen_cli(args)
                        == Err::<GenDraft, CliFault>(CliFault::Missing(Flag::Seed))
                    &&& d.profile is Some && d.out is Some && d.seed is Some && d.events is None
                        ==> gen_cli(args) == Err::<GenDraft, CliFault>(
                        CliFault::Missing(Flag::Events),
                    )
                    &&& d.profile is Some && d.out is Some && d.seed is Some && d.events is Some
                        ==> gen_cli(args) == Ok::<GenDraft, CliFault>(d)
                },
            }
        }),
{
}

} // verus!
