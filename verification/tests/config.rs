use rustsoda::log::Verbosity;
use rustsoda::{compile_time_sysroot, parse_config, prepare_rustc_args, rustsoda_default_args, RustSodaConfig, SysrootEnv};

fn s(x: &str) -> String {
    x.to_string()
}

fn env() -> SysrootEnv {
    SysrootEnv {
        rustc_stage: None,
        rustup_home: None,
        multirust_home: None,
        rustup_toolchain: None,
        multirust_toolchain: None,
        rust_sysroot: None,
    }
}

#[test]
fn default_config_is_normal() {
    assert_eq!(RustSodaConfig::default().verbosity, Verbosity::Normal);
}

#[test]
fn default_args() {
    assert_eq!(rustsoda_default_args(), vec![s("-Zalways-encode-mir"), s("-Zmir-opt-level=0")]);
}

#[test]
fn verbosity_flags_are_taken_out() {
    let (c, rest) = parse_config(vec![s("rustsoda"), s("-v"), s("main.rs")]);
    assert_eq!(c.verbosity, Verbosity::Verbose);
    assert_eq!(rest, vec![s("rustsoda"), s("main.rs")]);
    let (c, rest) = parse_config(vec![s("rustsoda"), s("-v"), s("-vv")]);
    assert_eq!(c.verbosity, Verbosity::Trace);
    assert_eq!(rest, vec![s("rustsoda")]);
    let (c, rest) = parse_config(vec![s("a"), s("-vvv")]);
    assert_eq!(c.verbosity, Verbosity::Normal);
    assert_eq!(rest, vec![s("a"), s("-vvv")]);
}

#[test]
fn sysroot_inside_rustc_is_none() {
    let mut e = env();
    e.rustc_stage = Some(s("1"));
    assert_eq!(compile_time_sysroot(&e), None);
}

#[test]
fn sysroot_from_rustup() {
    let mut e = env();
    e.rustup_home = Some(s("/home/u/.rustup"));
    e.multirust_toolchain = Some(s("nightly"));
    assert_eq!(compile_time_sysroot(&e), Some(s("/home/u/.rustup/toolchains/nightly")));
    e.multirust_home = Some(s("/other"));
    e.rustup_toolchain = Some(s("stable"));
    assert_eq!(compile_time_sysroot(&e), Some(s("/home/u/.rustup/toolchains/stable")));
}

#[test]
fn sysroot_from_rust_sysroot() {
    let mut e = env();
    e.rustup_home = Some(s("/home/u/.rustup"));
    e.rust_sysroot = Some(s("/opt/rust"));
    assert_eq!(compile_time_sysroot(&e), Some(s("/opt/rust")));
}

#[test]
fn rustc_args_get_sysroot_and_defaults() {
    let r = prepare_rustc_args(vec![s("rustc"), s("main.rs")], Some(s("/sys")));
    assert_eq!(
        r,
        vec![s("rustc"), s("-Zalways-encode-mir"), s("-Zmir-opt-level=0"), s("main.rs"), s("--sysroot"), s("/sys")]
    );
}

#[test]
fn given_sysroot_is_kept() {
    let r = prepare_rustc_args(vec![s("rustc"), s("--sysroot"), s("/mine")], Some(s("/sys")));
    assert_eq!(
        r,
        vec![s("rustc"), s("-Zalways-encode-mir"), s("-Zmir-opt-level=0"), s("--sysroot"), s("/mine")]
    );
    let r = prepare_rustc_args(vec![s("rustc")], None);
    assert_eq!(r, vec![s("rustc"), s("-Zalways-encode-mir"), s("-Zmir-opt-level=0")]);
}
