//! The decisions of the compiler driver: where the sysroot is, and which arguments go to rustc.
use vstd::prelude::*;
use vstd::string::StringExecFns;

verus! {

/// The environment the driver was built in: the values of `RUSTUP_HOME`, `MULTIRUST_HOME`,
/// `RUSTUP_TOOLCHAIN`, `MULTIRUST_TOOLCHAIN` and `RUST_SYSROOT`, where they were set.
pub struct BuildEnv {
    pub rustup_home: Option<String>,
    pub multirust_home: Option<String>,
    pub rustup_toolchain: Option<String>,
    pub multirust_toolchain: Option<String>,
    pub rust_sysroot: Option<String>,
}

/// The first of two optional strings that is set.
pub open spec fn first_set(a: Option<String>, b: Option<String>) -> Option<Seq<char>> {
    match a {
        Some(s) => Some(s@),
        None => match b {
            Some(s) => Some(s@),
            None => None,
        },
    }
}

/// The sysroot: `<home>/toolchains/<toolchain>` when a rustup (or multirust) home and toolchain
/// are both known, else `RUST_SYSROOT`; `None` when neither is known.
pub open spec fn sysroot(env: BuildEnv) -> Option<Seq<char>> {
    match (
        first_set(env.rustup_home, env.multirust_home),
        first_set(env.rustup_toolchain, env.multirust_toolchain),
    ) {
        (Some(home), Some(toolchain)) => Some(home + "/toolchains/"@ + toolchain),
        _ => match env.rust_sysroot {
            Some(s) => Some(s@),
            None => None,
        },
    }
}

fn first_set_of(a: &Option<String>, b: &Option<String>) -> (r: Option<String>)
    ensures
        match r {
            Some(s) => first_set(*a, *b) == Some(s@),
            None => first_set(*a, *b) is None,
        },
{
    match a {
        Some(s) => Some(s.clone()),
        None => match b {
            Some(s) => Some(s.clone()),
            None => None,
        },
    }
}

/// Whether the sysroot is known: a home and a toolchain, or `RUST_SYSROOT`.
pub fn has_sysroot(env: &BuildEnv) -> (r: bool)
    ensures
        r == (sysroot(*env) is Some),
{
    let home_known = env.rustup_home.is_some() || env.multirust_home.is_some();
    let toolchain_known = env.rustup_toolchain.is_some() || env.multirust_toolchain.is_some();
    (home_known && toolchain_known) || env.rust_sysroot.is_some()
}

/// Finds the sysroot the compiler is run with.
pub fn find_sysroot(env: &BuildEnv) -> (r: String)
    requires
        sysroot(*env) is Some,
    ensures
        r@ == sysroot(*env).unwrap(),
{
    let home = first_set_of(&env.rustup_home, &env.multirust_home);
    let toolchain = first_set_of(&env.rustup_toolchain, &env.multirust_toolchain);
    match (home, toolchain) {
        (Some(home), Some(toolchain)) => {
            let mut r = String::from_str(home.as_str());
            r.append("/toolchains/");
            r.append(toolchain.as_str());
            r
        },
        _ => match &env.rust_sysroot {
            Some(s) => s.clone(),
            None => {
                assert(false);
                String::new()
            },
        },
    }
}

/// `s` begins with `prefix`.
pub open spec fn has_prefix(s: Seq<char>, prefix: Seq<char>) -> bool {
    prefix.len() <= s.len() && s.subrange(0, prefix.len() as int) == prefix
}

/// Whether `s` begins with `prefix`.
pub fn starts_with(s: &str, prefix: &str) -> (r: bool)
    ensures
        r == has_prefix(s@, prefix@),
{
    let n = prefix.unicode_len();
    if n > s.unicode_len() {
        return false;
    }
    let mut i: usize = 0;
    while i < n
        invariant
            i <= n,
            n == prefix@.len(),
            n <= s@.len(),
            forall|k: int| 0 <= k < i ==> s@[k] == prefix@[k],
        decreases n - i,
    {
        if s.get_char(i) != prefix.get_char(i) {
            assert(s@.subrange(0, n as int)[i as int] != prefix@[i as int]);
            return false;
        }
        i = i + 1;
    }
    assert(s@.subrange(0, n as int) =~= prefix@);
    true
}

/// An argument meant for the analysis rather than for the compiler.
pub open spec fn is_analysis_arg(arg: String) -> bool {
    has_prefix(arg@, "--analysis"@)
}

/// The arguments, in order, that are not meant for the analysis.
pub open spec fn kept_args(args: Seq<String>) -> Seq<String> {
    args.filter(|a: String| !is_analysis_arg(a))
}

/// Law: an argument is withheld from the compiler exactly when it starts with the literal
/// `--analysis`; every other argument (such as `--edition=2021`, or another option of the
/// compiler) is passed on, in the order given. Stated for the arguments kept by
/// `compiler_args`: none are kept of no arguments, and one more argument is kept after the
/// others exactly when it does not start with `--analysis`.
pub proof fn lemma_compiler_args_withhold_only_analysis_args(args: Seq<String>, arg: String)
    ensures
        kept_args(Seq::<String>::empty()) == Seq::<String>::empty(),
        kept_args(args.push(arg)) == if "--analysis"@.len()
            <= arg@.len() && arg@.subrange(0, "--analysis"@.len() as int) == "--analysis"@ {
            kept_args(args)
        } else {
            kept_args(args).push(arg)
        },
        forall|i: int|
            0 <= i < args.len() && !("--analysis"@.len() <= args[i]@.len() && args[i]@.subrange(
                0,
                "--analysis"@.len() as int,
            ) == "--analysis"@) ==> #[trigger] kept_args(args).contains(
                args[i],
            ),
        forall|k: int|
            0 <= k < kept_args(args).len() ==> args.contains(
                #[trigger] kept_args(args)[k],
            ) && !("--analysis"@.len() <= kept_args(args)[k]@.len()
                && kept_args(args)[k]@.subrange(
                0,
                "--analysis"@.len() as int,
            ) == "--analysis"@),
{
    let pred = |a: String| !is_analysis_arg(a);
    let kept = args.filter(pred);
    reveal_with_fuel(Seq::<_>::filter, 1);
    assert(Seq::<String>::empty().filter(pred) =~= Seq::<String>::empty());
    assert(args.push(arg).drop_last() =~= args);
    assert forall|i: int|
        0 <= i < args.len() && pred(args[i]) implies #[trigger] kept.contains(args[i]) by {
        args.lemma_filter_contains(pred, i);
    }
    assert forall|k: int| 0 <= k < kept.len() implies args.contains(#[trigger] kept[k]) && pred(
        kept[k],
    ) by {
        args.lemma_filter_pred(pred, k);
        assert(kept.contains(kept[k]));
        args.lemma_filter_contains_rev(pred, kept[k]);
    }
}

/// The arguments for the compiler: every argument that is not meant for the analysis (those
/// starting with `--analysis`), in order, then `--sysroot` and the sysroot.
pub fn compiler_args(args: Vec<String>, env: &BuildEnv) -> (r: Vec<String>)
    requires
        sysroot(*env) is Some,
    ensures
        ({
            let kept = kept_args(args@);
            &&& r@.len() == kept.len() + 2
            &&& forall|i: int| 0 <= i < kept.len() ==> #[trigger] r@[i] == kept[i]
            &&& r@[kept.len() as int]@ == "--sysroot"@
            &&& r@[kept.len() + 1int]@ == sysroot(*env).unwrap()
        }),
{
    let ghost pred = |a: String| !is_analysis_arg(a);
    let ghost given = args@;
    let mut compiler_args: Vec<String> = Vec::new();
    let mut analysis_args: Vec<String> = Vec::new();
    let mut rest = args;
    let ghost mut done: int = 0;
    while rest.len() > 0
        invariant
            0 <= done <= given.len(),
            rest@ == given.skip(done),
            pred == (|a: String| !is_analysis_arg(a)),
            compiler_args@ == given.take(done).filter(pred),
        decreases rest@.len(),
    {
        let arg = rest.remove(0);
        proof {
            assert(arg == given[done]);
            reveal_with_fuel(Seq::<_>::filter, 1);
            assert(given.take(done + 1).drop_last() =~= given.take(done));
            assert(given.take(done + 1).last() == arg);
        }
        if starts_with(arg.as_str(), "--analysis") {
            analysis_args.push(arg);
        } else {
            compiler_args.push(arg);
        }
        proof {
            done = done + 1;
            assert(rest@ =~= given.skip(done));
        }
    }
    assert(given.take(done) =~= given);
    let ghost kept = compiler_args@;
    compiler_args.push(String::from_str("--sysroot"));
    compiler_args.push(find_sysroot(env));
    assert(compiler_args@[kept.len() as int] == compiler_args@[kept.len() as int]);
    compiler_args
}

} // verus!
