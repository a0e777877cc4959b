use rustc_alias::alias::{get_retags, Alias};
use rustc_alias::driver::{compiler_args, find_sysroot, has_sysroot, starts_with, BuildEnv};
use rustc_alias::analysis::retain_mut_refs_to_copies;
use rustc_alias::mir::{Body, LocalDecl, Mutability, TyCtxt, TyKind};

fn env(
    rustup_home: Option<&str>,
    multirust_home: Option<&str>,
    rustup_toolchain: Option<&str>,
    multirust_toolchain: Option<&str>,
    rust_sysroot: Option<&str>,
) -> BuildEnv {
    BuildEnv {
        rustup_home: rustup_home.map(String::from),
        multirust_home: multirust_home.map(String::from),
        rustup_toolchain: rustup_toolchain.map(String::from),
        multirust_toolchain: multirust_toolchain.map(String::from),
        rust_sysroot: rust_sysroot.map(String::from),
    }
}

#[test]
fn sysroot_from_rustup() {
    let e = env(Some("/home/u/.rustup"), None, Some("stage1"), None, Some("/other"));
    assert_eq!(find_sysroot(&e), "/home/u/.rustup/toolchains/stage1");
}

#[test]
fn sysroot_prefers_rustup_over_multirust() {
    let e = env(Some("/r"), Some("/m"), None, Some("nightly"), None);
    assert_eq!(find_sysroot(&e), "/r/toolchains/nightly");
}

#[test]
fn sysroot_from_multirust() {
    let e = env(None, Some("/m"), None, Some("nightly"), None);
    assert_eq!(find_sysroot(&e), "/m/toolchains/nightly");
}

#[test]
fn sysroot_falls_back_to_rust_sysroot() {
    let e = env(Some("/r"), None, None, None, Some("/opt/rust"));
    assert_eq!(find_sysroot(&e), "/opt/rust");
    let e = env(None, None, Some("stable"), None, Some("/opt/rust"));
    assert_eq!(find_sysroot(&e), "/opt/rust");
}

#[test]
fn analysis_args_are_not_passed_to_the_compiler() {
    let e = env(Some("/r"), None, Some("t"), None, None);
    let args: Vec<String> = ["rustc_alias", "--analysis-verbose", "-Zmir-emit-retag", "main.rs", "--analysis"]
        .iter()
        .map(|s| s.to_string())
        .collect();
    assert_eq!(
        compiler_args(args, &e),
        vec!["rustc_alias", "-Zmir-emit-retag", "main.rs", "--sysroot", "/r/toolchains/t"]
    );
}

#[test]
fn prefix_test() {
    assert!(starts_with("--analysis=x", "--analysis"));
    assert!(starts_with("abc", ""));
    assert!(!starts_with("--analys", "--analysis"));
    assert!(!starts_with("-analysis", "--analysis"));
}

#[test]
fn retags_are_the_mutable_references_to_copy_types_among_the_arguments() {
    // 0: i32, 1: &mut i32, 2: &i32, 3: &mut Adt, 4: Adt (not Copy), 5: &mut bool, 6: bool,
    // 7: Adt (Copy), 8: &mut of that Adt
    let tcx = TyCtxt {
        types: vec![
            TyKind::Int,
            TyKind::Ref(0, Mutability::Mut),
            TyKind::Ref(0, Mutability::Not),
            TyKind::Ref(4, Mutability::Mut),
            TyKind::Adt(0),
            TyKind::Ref(6, Mutability::Mut),
            TyKind::Bool,
            TyKind::Adt(1),
            TyKind::Ref(7, Mutability::Mut),
        ],
        copy_types: vec![true, false, true, false, false, false, true, true, false],
        projections: vec![],
    };
    let body = Body {
        basic_blocks: vec![],
        local_decls: [0, 1, 2, 3, 5, 8, 1].iter().map(|&ty| LocalDecl { ty, span: 0 }).collect(),
        arg_count: 5,
        span: 0,
    };
    // Local 6 is no argument.
    assert_eq!(get_retags(&tcx, &body), vec![1, 4, 5]);
}

#[test]
fn pass_runs_only_with_retags() {
    assert!(Alias.is_enabled(true));
    assert!(!Alias.is_enabled(false));
}

#[test]
fn sysroot_is_known() {
    assert!(has_sysroot(&env(Some("/r"), None, None, Some("t"), None)));
    assert!(has_sysroot(&env(None, None, None, None, Some("/s"))));
    assert!(!has_sysroot(&env(Some("/r"), Some("/m"), None, None, None)));
    assert!(!has_sysroot(&env(None, None, None, None, None)));
}

#[test]
fn analysis_keeps_the_collected_locals() {
    let tcx = TyCtxt {
        types: vec![TyKind::Int, TyKind::Ref(0, Mutability::Mut), TyKind::Ref(0, Mutability::Not)],
        copy_types: vec![true, false, true],
        projections: vec![],
    };
    let body = Body {
        basic_blocks: vec![],
        local_decls: [0, 1, 2, 1, 1].iter().map(|&ty| LocalDecl { ty, span: 0 }).collect(),
        arg_count: 4,
        span: 0,
    };
    let retags = get_retags(&tcx, &body);
    assert_eq!(retags, vec![1, 3, 4]);
    assert_eq!(retain_mut_refs_to_copies(&tcx, &body, retags.clone()), retags);
}
