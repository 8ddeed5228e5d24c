use rust_memory_check::cargo_mc::{
    analysis_command, cargo_command, compile_time_sysroot, decode_args, encode_args, invocation,
    Invocation, TargetKind,
};
use rust_memory_check::merge::{CheckResult, DfResult, DfSpan, UafResult, UafSpan};

fn strings(items: &[&str]) -> Vec<String> {
    items.iter().map(|s| s.to_string()).collect()
}

#[test]
fn the_subcommand_knows_what_it_is_called_for() {
    assert_eq!(invocation(&strings(&["cargo-mc", "mc"])), Invocation::Check);
    assert_eq!(invocation(&strings(&["cargo-mc", "rustc", "--crate-name", "a"])), Invocation::Compile);
    assert_eq!(invocation(&strings(&["cargo-mc", "mc", "--help"])), Invocation::Help);
    assert_eq!(invocation(&strings(&["cargo-mc", "-h"])), Invocation::Help);
    assert_eq!(invocation(&strings(&["cargo-mc", "mc", "-V"])), Invocation::Version);
    assert_eq!(invocation(&strings(&["cargo-mc", "rustc", "--version"])), Invocation::Version);
    assert_eq!(invocation(&strings(&["cargo-mc", "-V", "--help"])), Invocation::Help);
    assert_eq!(invocation(&strings(&["cargo-mc"])), Invocation::Unknown);
    assert_eq!(invocation(&strings(&[])), Invocation::Unknown);
    assert_eq!(invocation(&strings(&["cargo-mc", "build", "mc"])), Invocation::Unknown);
    assert_eq!(invocation(&strings(&["mc", "x"])), Invocation::Unknown);
}

#[test]
fn cargo_checks_programs_and_libraries() {
    let args = strings(&["cargo-mc", "mc", "-v", "--release", "--", "--entries=main", "--DBG"]);
    let (cargo_args, analysis_args) = cargo_command(&args, TargetKind::Bin, "tool").unwrap();
    assert_eq!(cargo_args, strings(&["check", "--bin", "tool", "-v", "--release"]));
    assert_eq!(analysis_args, strings(&["--entries=main", "--DBG"]));
    let (cargo_args, analysis_args) = cargo_command(&args, TargetKind::Lib, "tool").unwrap();
    assert_eq!(cargo_args, strings(&["check", "--lib", "-v", "--release"]));
    assert_eq!(analysis_args, strings(&["--entries=main", "--DBG"]));
    assert!(cargo_command(&args, TargetKind::Other, "tool").is_none());
}

#[test]
fn cargo_is_called_without_arguments_of_its_own() {
    let (cargo_args, analysis_args) =
        cargo_command(&strings(&["cargo-mc", "mc"]), TargetKind::Lib, "x").unwrap();
    assert_eq!(cargo_args, strings(&["check", "--lib"]));
    assert!(analysis_args.is_empty());
    let (cargo_args, analysis_args) =
        cargo_command(&strings(&["cargo-mc"]), TargetKind::Bin, "x").unwrap();
    assert_eq!(cargo_args, strings(&["check", "--bin", "x"]));
    assert!(analysis_args.is_empty());
    let (cargo_args, analysis_args) =
        cargo_command(&strings(&["cargo-mc", "mc", "--", "--", "a"]), TargetKind::Lib, "x")
            .unwrap();
    assert_eq!(cargo_args, strings(&["check", "--lib"]));
    assert_eq!(analysis_args, strings(&["--", "a"]));
    let (_, analysis_args) =
        cargo_command(&strings(&["cargo-mc", "mc", "a", "--"]), TargetKind::Lib, "x").unwrap();
    assert!(analysis_args.is_empty());
}

#[test]
fn the_analysis_is_called_in_place_of_the_compiler() {
    let args = strings(&["cargo-mc", "rustc", "--crate-name", "tool", "src/main.rs"]);
    let own = strings(&["--entries=main"]);
    assert_eq!(
        analysis_command(&args, "/sys/root", Some(&own)),
        strings(&["--crate-name", "tool", "src/main.rs", "--sysroot", "/sys/root", "--entries=main"])
    );
    assert_eq!(
        analysis_command(&args, "/sys/root", None),
        strings(&["--crate-name", "tool", "src/main.rs", "--sysroot", "/sys/root"])
    );
    assert_eq!(
        analysis_command(&strings(&["cargo-mc"]), "r", Some(&Vec::new())),
        strings(&["--sysroot", "r"])
    );
}

#[test]
fn the_arguments_for_the_analysis_come_back_as_they_were_sent() {
    let (_, analysis_args) = cargo_command(
        &strings(&["cargo-mc", "mc", "--", "--entries=a::b", "say \"hi\"", ""]),
        TargetKind::Lib,
        "x",
    )
    .unwrap();
    let text = encode_args(&analysis_args).unwrap();
    assert_eq!(text, "[\"--entries=a::b\",\"say \\\"hi\\\"\",\"\"]");
    assert_eq!(decode_args(&text), Some(analysis_args));
}

#[test]
fn a_result_with_a_finding_is_a_failure() {
    let mut result = CheckResult::new();
    assert!(!result.has_findings());
    result.uaf_results.push((UafSpan::new(1, 2), Vec::new()));
    result.df_results.push((DfSpan::new(3, 4), Vec::new()));
    assert!(!result.has_findings());
    result.df_results.push((DfSpan::new(5, 6), vec![DfResult::new(5, None, 6, None)]));
    assert!(result.has_findings());
    let mut other = CheckResult::new();
    other.uaf_results.push((UafSpan::new(1, 2), vec![UafResult::new(1, None, 2, None)]));
    assert!(other.has_findings());
}

#[test]
fn the_subcommand_finds_the_sysroot_as_the_analysis_does() {
    assert_eq!(
        compile_time_sysroot(None, Some("/home/u/.rustup"), Some("nightly"), None),
        Some("/home/u/.rustup/toolchains/nightly".to_string())
    );
    assert_eq!(
        compile_time_sysroot(None, Some("/home/u/.rustup"), None, Some("/opt/sysroot")),
        Some("/opt/sysroot".to_string())
    );
    assert_eq!(compile_time_sysroot(Some("1"), Some("h"), Some("t"), Some("s")), None);
    assert_eq!(
        compile_time_sysroot(None, Some("h"), Some("t"), Some("s")),
        rust_memory_check::get_compile_time_sysroot(None, Some("h"), Some("t"), Some("s"))
    );
}
