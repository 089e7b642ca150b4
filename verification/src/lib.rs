pub mod call_graph;
pub mod johnson_find_cycles;
pub mod log;

use vstd::prelude::*;
use vstd::string::StringExecFns;
use crate::log::Verbosity;

verus! {

/// The options of a run.
#[derive(Debug, Clone, Copy)]
pub struct RustSodaConfig {
    pub verbosity: Verbosity,
}

impl Default for RustSodaConfig {
    fn default() -> (r: Self)
        ensures
            r.verbosity == Verbosity::Normal,
    {
        RustSodaConfig { verbosity: Verbosity::Normal }
    }
}

/// The values of the build environment that decide the default sysroot.
pub struct SysrootEnv {
    /// `RUSTC_STAGE`: set when built as part of rustc.
    pub rustc_stage: Option<String>,
    pub rustup_home: Option<String>,
    pub multirust_home: Option<String>,
    pub rustup_toolchain: Option<String>,
    pub multirust_toolchain: Option<String>,
    pub rust_sysroot: Option<String>,
}

/// An optional string, as a sequence.
pub open spec fn opt_view(o: Option<String>) -> Option<Seq<char>> {
    match o {
        Some(s) => Some(s@),
        None => None,
    }
}

/// The first of two optional strings that is there.
pub open spec fn first_of(a: Option<String>, b: Option<String>) -> Option<Seq<char>> {
    match a {
        Some(s) => Some(s@),
        None => opt_view(b),
    }
}

/// The sysroot used when none is given: none when built inside rustc, else the
/// toolchain under the rustup home, else `RUST_SYSROOT`.
pub open spec fn spec_sysroot(env: SysrootEnv) -> Option<Seq<char>> {
    if env.rustc_stage is Some {
        None
    } else {
        match (first_of(env.rustup_home, env.multirust_home), first_of(env.rustup_toolchain, env.multirust_toolchain)) {
            (Some(home), Some(toolchain)) => Some(home + "/toolchains/"@ + toolchain),
            _ => opt_view(env.rust_sysroot),
        }
    }
}

/// Whether `spec_sysroot` needs `RUST_SYSROOT`, which must then be set.
pub open spec fn needs_rust_sysroot(env: SysrootEnv) -> bool {
    &&& env.rustc_stage is None
    &&& (first_of(env.rustup_home, env.multirust_home) is None || first_of(env.rustup_toolchain, env.multirust_toolchain) is None)
}

/// Returns the sysroot used when no `--sysroot` flag is given.
pub fn compile_time_sysroot(env: &SysrootEnv) -> (r: Option<String>)
    requires
        needs_rust_sysroot(*env) ==> env.rust_sysroot is Some,
    ensures
        opt_view(r) == spec_sysroot(*env),
{
    if env.rustc_stage.is_some() {
        return None;
    }
    let home = match &env.rustup_home {
        Some(h) => Some(h),
        None => env.multirust_home.as_ref(),
    };
    let toolchain = match &env.rustup_toolchain {
        Some(t) => Some(t),
        None => env.multirust_toolchain.as_ref(),
    };
    match (home, toolchain) {
        (Some(home), Some(toolchain)) => {
            let mut s = home.clone();
            s.append("/toolchains/");
            s.append(toolchain.as_str());
            Some(s)
        },
        _ => {
            match &env.rust_sysroot {
                Some(r) => Some(r.clone()),
                None => None,
            }
        },
    }
}

/// The flags always given to the compiler, before the others.
pub open spec fn default_args() -> Seq<Seq<char>> {
    seq!["-Zalways-encode-mir"@, "-Zmir-opt-level=0"@]
}

/// The flags always given to the compiler.
pub fn rustsoda_default_args() -> (r: Vec<String>)
    ensures
        strings_view(r@) == default_args(),
{
    let mut r: Vec<String> = Vec::new();
    r.push(String::from_str("-Zalways-encode-mir"));
    r.push(String::from_str("-Zmir-opt-level=0"));
    proof { assert(strings_view(r@) =~= default_args()); }
    r
}

/// Strings as sequences of characters.
pub open spec fn strings_view(v: Seq<String>) -> Seq<Seq<char>> {
    Seq::new(v.len(), |i: int| v[i]@)
}

/// The options given by the flags `-v` and `-vv` (the last one counts), and
/// the other arguments, which go to the compiler.
pub open spec fn parsed_args(args: Seq<Seq<char>>) -> (Verbosity, Seq<Seq<char>>)
    decreases args.len(),
{
    if args.len() == 0 {
        (Verbosity::Normal, Seq::empty())
    } else {
        let (v, rest) = parsed_args(args.drop_last());
        let a = args.last();
        if a == "-v"@ {
            (Verbosity::Verbose, rest)
        } else if a == "-vv"@ {
            (Verbosity::Trace, rest)
        } else {
            (v, rest.push(a))
        }
    }
}

/// Reads the options from the command line; the rest goes to the compiler.
pub fn parse_config(args: Vec<String>) -> (r: (RustSodaConfig, Vec<String>))
    ensures
        r.0.verbosity == parsed_args(strings_view(args@)).0,
        strings_view(r.1@) == parsed_args(strings_view(args@)).1,
{
    let mut config = RustSodaConfig::default();
    let mut rustc_args: Vec<String> = Vec::new();
    let verbose = String::from_str("-v");
    let trace = String::from_str("-vv");
    let ghost all = strings_view(args@);
    let mut i: usize = 0;
    proof { assert(all.take(0) =~= Seq::<Seq<char>>::empty()); }
    while i < args.len()
        invariant
            all == strings_view(args@),
            verbose@ == "-v"@,
            trace@ == "-vv"@,
            i <= args@.len(),
            config.verbosity == parsed_args(all.take(i as int)).0,
            strings_view(rustc_args@) == parsed_args(all.take(i as int)).1,
        decreases args@.len() - i,
    {
        let arg = &args[i];
        proof { assert(all.take(i as int + 1).drop_last() =~= all.take(i as int)); }
        if *arg == verbose {
            config.verbosity = Verbosity::Verbose;
        } else if *arg == trace {
            config.verbosity = Verbosity::Trace;
        } else {
            rustc_args.push(arg.clone());
            proof {
                assert(strings_view(rustc_args@) =~= parsed_args(all.take(i as int)).1.push(arg@));
            }
        }
        i += 1;
    }
    proof { assert(all.take(i as int) =~= all); }
    (config, rustc_args)
}

/// The compiler's arguments: the sysroot added unless one is given, then the
/// flags of `default_args` after the first argument (the program's name).
pub open spec fn spec_rustc_args(args: Seq<Seq<char>>, sysroot: Option<Seq<char>>) -> Seq<Seq<char>> {
    let with_sysroot = match sysroot {
        Some(s) => if args.contains("--sysroot"@) { args } else { args.push("--sysroot"@).push(s) },
        None => args,
    };
    seq![with_sysroot[0]] + default_args() + with_sysroot.skip(1)
}

/// Completes the compiler's arguments with the sysroot and the default flags.
pub fn prepare_rustc_args(args: Vec<String>, sysroot: Option<String>) -> (r: Vec<String>)
    requires
        args@.len() >= 1 || sysroot is Some,
    ensures
        strings_view(r@) == spec_rustc_args(strings_view(args@), opt_view(sysroot)),
{
    let mut args = args;
    let ghost given = strings_view(args@);
    let sysroot_flag = String::from_str("--sysroot");
    if let Some(sysroot) = sysroot {
        let mut found = false;
        let mut i: usize = 0;
        while i < args.len()
            invariant
                i <= args@.len(),
                given == strings_view(args@),
                sysroot_flag@ == "--sysroot"@,
                found == exists|k: int| 0 <= k < i && #[trigger] args@[k]@ == "--sysroot"@,
            decreases args@.len() - i,
        {
            if args[i] == sysroot_flag {
                found = true;
            }
            i += 1;
        }
        proof {
            if found {
                let k = choose|k: int| 0 <= k < i && #[trigger] args@[k]@ == "--sysroot"@;
                assert(given[k] == "--sysroot"@);
            }
            if given.contains("--sysroot"@) {
                let k = choose|k: int| 0 <= k < given.len() && given[k] == "--sysroot"@;
                assert(args@[k]@ == "--sysroot"@);
            }
        }
        if !found {
            args.push(sysroot_flag);
            args.push(sysroot);
            proof { assert(strings_view(args@) =~= given.push("--sysroot"@).push(sysroot@)); }
        }
    }
    proof {
        assert(strings_view(args@) == match opt_view(sysroot) {
            Some(s) => if given.contains("--sysroot"@) { given } else { given.push("--sysroot"@).push(s) },
            None => given,
        });
    }
    let ghost with_sysroot = strings_view(args@);
    let defaults = rustsoda_default_args();
    let mut r: Vec<String> = Vec::new();
    r.push(args[0].clone());
    let mut k: usize = 0;
    while k < defaults.len()
        invariant
            k <= defaults@.len(),
            args@.len() >= 1,
            with_sysroot == strings_view(args@),
            strings_view(defaults@) == default_args(),
            strings_view(r@) == seq![with_sysroot[0]] + default_args().take(k as int),
        decreases defaults@.len() - k,
    {
        let ghost prev = strings_view(r@);
        r.push(defaults[k].clone());
        proof {
            assert(defaults@[k as int]@ == default_args()[k as int]);
            assert(strings_view(r@) =~= prev.push(default_args()[k as int]));
            assert(default_args().take(k as int + 1) =~= default_args().take(k as int).push(default_args()[k as int]));
        }
        k += 1;
        proof { assert(strings_view(r@) =~= seq![with_sysroot[0]] + default_args().take(k as int)); }
    }
    let mut j: usize = 1;
    while j < args.len()
        invariant
            1 <= j <= args@.len(),
            with_sysroot == strings_view(args@),
            strings_view(r@) == seq![with_sysroot[0]] + default_args() + with_sysroot.subrange(1, j as int),
        decreases args@.len() - j,
    {
        let ghost prev = strings_view(r@);
        r.push(args[j].clone());
        proof {
            assert(strings_view(r@) =~= prev.push(with_sysroot[j as int]));
        }
        j += 1;
        proof {
            assert(strings_view(r@) =~= seq![with_sysroot[0]] + default_args() + with_sysroot.subrange(1, j as int));
        }
    }
    proof {
        assert(default_args().take(2) =~= default_args());
        assert(with_sysroot.subrange(1, j as int) =~= with_sysroot.skip(1));
    }
    r
}

/// Built as part of rustc, there is no default sysroot.
pub proof fn lemma_no_sysroot_inside_rustc(env: SysrootEnv)
    requires
        env.rustc_stage is Some,
    ensures
        spec_sysroot(env) is None,
{
}

/// Outside rustc, with a home (`RUSTUP_HOME`, else `MULTIRUST_HOME`) and a
/// toolchain (`RUSTUP_TOOLCHAIN`, else `MULTIRUST_TOOLCHAIN`) both set, the
/// sysroot is that toolchain's directory under the home, whatever
/// `RUST_SYSROOT` holds.
pub proof fn lemma_sysroot_of_toolchain(env: SysrootEnv, home: String, toolchain: String)
    requires
        env.rustc_stage is None,
        env.rustup_home == Some(home) || (env.rustup_home is None && env.multirust_home == Some(home)),
        env.rustup_toolchain == Some(toolchain) || (env.rustup_toolchain is None && env.multirust_toolchain == Some(toolchain)),
    ensures
        spec_sysroot(env) == Some(home@ + "/toolchains/"@ + toolchain@),
{
}

/// Outside rustc, without a home or without a toolchain, the sysroot is
/// `RUST_SYSROOT`.
pub proof fn lemma_sysroot_from_rust_sysroot(env: SysrootEnv)
    requires
        env.rustc_stage is None,
        (env.rustup_home is None && env.multirust_home is None)
            || (env.rustup_toolchain is None && env.multirust_toolchain is None),
    ensures
        spec_sysroot(env) == (match env.rust_sysroot { Some(s) => Some(s@), None => None::<Seq<char>> }),
{
}

/// A `--sysroot` given anywhere among the arguments is kept and no other is
/// added: the result is the first argument, the default flags, then the
/// other arguments unchanged.
pub proof fn lemma_given_sysroot_kept(args: Seq<Seq<char>>, sysroot: Option<Seq<char>>, k: int)
    requires
        0 <= k < args.len(),
        args[k] == "--sysroot"@,
    ensures
        spec_rustc_args(args, sysroot) == seq![args[0]] + seq!["-Zalways-encode-mir"@, "-Zmir-opt-level=0"@] + args.skip(1),
{
    assert(args.contains("--sysroot"@));
}

/// Without a `--sysroot` among the arguments, the sysroot given is added at
/// the end, after that flag; with none given, nothing is added.
pub proof fn lemma_missing_sysroot_added(args: Seq<Seq<char>>, sysroot: Option<Seq<char>>)
    requires
        args.len() >= 1,
        forall|k: int| 0 <= k < args.len() ==> args[k] != "--sysroot"@,
    ensures
        spec_rustc_args(args, sysroot) == seq![args[0]] + seq!["-Zalways-encode-mir"@, "-Zmir-opt-level=0"@] + args.skip(1)
            + (match sysroot { Some(s) => seq!["--sysroot"@, s], None => Seq::<Seq<char>>::empty() }),
{
    match sysroot {
        Some(s) => {
            let w = args.push("--sysroot"@).push(s);
            assert(w[0] == args[0]);
            assert(w.skip(1) =~= args.skip(1) + seq!["--sysroot"@, s]);
            assert(spec_rustc_args(args, sysroot) =~= seq![args[0]] + seq!["-Zalways-encode-mir"@, "-Zmir-opt-level=0"@] + args.skip(1)
                + seq!["--sysroot"@, s]);
        },
        None => {
            assert(spec_rustc_args(args, sysroot) =~= seq![args[0]] + seq!["-Zalways-encode-mir"@, "-Zmir-opt-level=0"@] + args.skip(1)
                + Seq::<Seq<char>>::empty());
        },
    }
}

} // verus!
